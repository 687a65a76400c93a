//! What holds of PSNR and of every rate search.

use vstd::arithmetic::power2::{lemma2_to64, lemma_pow2_unfold, pow2};
use vstd::prelude::*;

use crate::encoder::{decoded_file, file_of, Settings};
use crate::error::Error;
use crate::image::{unpacked, Image};
use crate::rate::{
    attempts_of, bisected, bisection_finds_the_edge, channel, clears, fallback, fits, is_step,
    lemma_whole_log2, log2_bits, log2_q16, looked_at, mantissa, picture_error, picture_psnr,
    pixel_error, preferred, probes, psnr_quality, searched, size_quality, tried, Bounds, Edge, Found, Pred,
};

verus! {

proof fn lemma_log2_bits(m: int, k: nat)
    ensures
        0 <= log2_bits(m, k) < pow2(k),
    decreases k,
{
    lemma2_to64();
    if k > 0 {
        lemma_pow2_unfold(k);
        let sq = (m * m) / 0x8000_0000;
        lemma_log2_bits(sq / 2, (k - 1) as nat);
        lemma_log2_bits(sq, (k - 1) as nat);
    }
}

/// Logarithms of 64-bit numbers are small.
pub proof fn lemma_log2_range(v: int)
    requires
        v <= u64::MAX,
    ensures
        0 <= log2_q16(v) < 64 * 65536,
{
    lemma2_to64();
    if v > 0 {
        lemma_whole_log2(v, 64);
        lemma_log2_bits(mantissa(v), 16);
    }
}

proof fn lemma_square(a: int, b: int)
    ensures
        (a - b) * (a - b) == (b - a) * (b - a),
        0 <= (a - b) * (a - b),
        (a - b) * (a - b) == 0 <==> a == b,
        0 <= a < 256 && 0 <= b < 256 ==> (a - b) * (a - b) <= 65025,
{
    assert((a - b) * (a - b) == (b - a) * (b - a)) by (nonlinear_arith);
    assert(0 <= (a - b) * (a - b)) by (nonlinear_arith);
    assert((a - b) * (a - b) == 0 ==> a == b) by (nonlinear_arith);
    assert(a == b ==> (a - b) * (a - b) == 0) by (nonlinear_arith);
    let d = a - b;
    if -256 < d < 256 {
        assert(d * d <= 65025) by (nonlinear_arith)
            requires
                -256 < d < 256,
        ;
    }
}

/// Whether two pixels have the same colours; alpha does not count.
pub open spec fn same_colours(p: u32, q: u32) -> bool {
    channel(p, 0) == channel(q, 0) && channel(p, 1) == channel(q, 1) && channel(p, 2) == channel(q, 2)
}

proof fn lemma_pixel_error(p: u32, q: u32)
    ensures
        pixel_error(p, q) == pixel_error(q, p),
        0 <= pixel_error(p, q) <= 195075,
        pixel_error(p, q) == 0 <==> same_colours(p, q),
{
    lemma_square(channel(p, 0), channel(q, 0));
    lemma_square(channel(p, 1), channel(q, 1));
    lemma_square(channel(p, 2), channel(q, 2));
}

proof fn lemma_picture_error(a: Seq<u32>, b: Seq<u32>, n: int)
    ensures
        picture_error(a, b, n) == picture_error(b, a, n),
        0 <= picture_error(a, b, n),
        0 <= n ==> picture_error(a, b, n) <= 195075 * n,
        picture_error(a, b, n) == 0 <==> forall|i: int|
            0 <= i < n ==> same_colours(#[trigger] a[i], b[i]),
    decreases n,
{
    if n > 0 {
        lemma_picture_error(a, b, n - 1);
        lemma_pixel_error(a[n - 1], b[n - 1]);
        if picture_error(a, b, n) == 0 {
            assert forall|i: int| 0 <= i < n implies same_colours(#[trigger] a[i], b[i]) by {
                if i < n - 1 {
                    assert(picture_error(a, b, n - 1) == 0);
                }
            }
        }
        if forall|i: int| 0 <= i < n ==> same_colours(#[trigger] a[i], b[i]) {
            assert(same_colours(a[n - 1], b[n - 1]));
            assert forall|i: int| 0 <= i < n - 1 implies same_colours(#[trigger] a[i], b[i]) by {}
        }
    }
}

/// PSNR does not depend on which picture is the source.
pub proof fn psnr_is_symmetric(a: Seq<u32>, b: Seq<u32>)
    ensures
        picture_psnr(a, b) == picture_psnr(b, a),
{
    let n = if a.len() < b.len() {
        a.len() as int
    } else {
        b.len() as int
    };
    lemma_picture_error(a, b, n);
}

/// PSNR is the largest number if and only if all colours agree on the pixels that both
/// pictures have.
pub proof fn psnr_is_largest_for_equal_colours(a: Seq<u32>, b: Seq<u32>)
    requires
        a.len() <= 0x100_0000_0000,
    ensures
        picture_psnr(a, b) == u32::MAX <==> forall|i: int|
            0 <= i < a.len() && i < b.len() ==> same_colours(#[trigger] a[i], b[i]),
{
    let n = if a.len() < b.len() {
        a.len() as int
    } else {
        b.len() as int
    };
    lemma_picture_error(a, b, n);
    let e = picture_error(a, b, n);
    let num = if 65025 * (3 * n) > u64::MAX {
        u64::MAX as int
    } else {
        65025 * (3 * n)
    };
    lemma_log2_range(num);
    lemma_log2_range(e);
}

/// A bisection of fewer than `2^k` places probes at most `k` of them.
proof fn lemma_probes_len(edge: Edge, p: Pred, a: int, b: int, k: nat)
    requires
        b - a + 1 < pow2(k),
    ensures
        probes(edge, p, a, b).len() <= k,
        forall|i: int| 0 <= i < probes(edge, p, a, b).len() ==> a <= #[trigger] probes(
            edge,
            p,
            a,
            b,
        )[i] <= b,
    decreases k,
{
    lemma2_to64();
    if a <= b {
        if k == 0 {
            assert(pow2(0) == 1);
        } else {
            lemma_pow2_unfold(k);
            let mid = (a + b) / 2;
            lemma_probes_len(edge, p, mid + 1, b, (k - 1) as nat);
            lemma_probes_len(edge, p, a, mid - 1, (k - 1) as nat);
        }
    }
}

/// What a bisection finds, it has probed, unless it started out with it.
proof fn lemma_found_is_probed(edge: Edge, p: Pred, a: int, b: int, best: int)
    requires
        a <= b,
    ensures
        bisected(edge, p, a, b, best) matches Ok(q) ==> probes(edge, p, a, b).contains(q) || (q == best
            && best != fallback(edge, a, b)),
    decreases b - a + 1,
{
    let mid = (a + b) / 2;
    let all = probes(edge, p, a, b);
    assert(all[0] == mid);
    if let Ok(holds) = p(mid) {
        let next = if holds {
            mid
        } else {
            best
        };
        let up = holds == (edge == Edge::LastTrue);
        let (c, d) = if up {
            (mid + 1, b)
        } else {
            (a, mid - 1)
        };
        let rest = probes(edge, p, c, d);
        assert(all == seq![mid] + rest);
        if c <= d {
            lemma_found_is_probed(edge, p, c, d, next);
            if let Ok(q) = bisected(edge, p, c, d, next) {
                if rest.contains(q) {
                    let i = rest.index_of(q);
                    assert(all[i + 1] == q);
                }
            }
        }
    }
}

/// Every quality that was looked at was tried, and none was tried twice.
proof fn lemma_attempts(image: Image, s: Settings, qs: Seq<int>)
    requires
        forall|i: int| 0 <= i < qs.len() ==> 0 <= #[trigger] qs[i] <= 255,
    ensures
        attempts_of(image, s, qs).len() <= qs.len(),
        forall|i: int| 0 <= i < qs.len() ==> tried(attempts_of(image, s, qs), #[trigger] qs[i]),
        forall|i: int, j: int|
            0 <= i < j < attempts_of(image, s, qs).len() ==> (#[trigger] attempts_of(image, s, qs)[i]).quality
                != (#[trigger] attempts_of(image, s, qs)[j]).quality,
    decreases qs.len(),
{
    if qs.len() > 0 {
        let head = qs.drop_last();
        let q = qs.last();
        lemma_attempts(image, s, head);
        let done = attempts_of(image, s, head);
        let all = attempts_of(image, s, qs);
        assert(0 <= qs[qs.len() - 1] <= 255);
        if !tried(done, q) {
            assert(all[done.len() as int].quality == q);
            assert forall|i: int, j: int| 0 <= i < j < all.len() implies (#[trigger] all[i]).quality
                != (#[trigger] all[j]).quality by {
                if j == done.len() {
                    assert(done[i].quality != q);
                }
            }
        }
        assert forall|i: int| 0 <= i < qs.len() implies tried(all, #[trigger] qs[i]) by {
            if i < qs.len() - 1 {
                assert(tried(done, head[i]));
                let k = choose|k: int| 0 <= k < done.len() && (#[trigger] done[k]).quality == head[i];
                assert(all[k].quality == qs[i]);
            }
        }
    }
}

/// Looking again at a quality that was looked at adds no attempt.
proof fn lemma_known(image: Image, s: Settings, qs: Seq<int>, q: int)
    requires
        tried(attempts_of(image, s, qs), q),
    ensures
        attempts_of(image, s, qs.push(q)) == attempts_of(image, s, qs),
{
    assert(qs.push(q).drop_last() =~= qs);
}

/// A search encodes no quality twice, at most seven for each bound of its target, and the
/// one it chooses among them.
pub proof fn search_tries_few_qualities(image: Image, s: Settings, t: Bounds)
    ensures
        searched(image, s, t) matches Ok(found) ==> {
            &&& 0 <= found.quality <= 100
            &&& tried(found.attempts, found.quality as int)
            &&& found.attempts.len() <= (if t.max_bytes is Some && t.min_psnr is Some {
                14int
            } else {
                7
            })
            &&& forall|i: int, j: int|
                0 <= i < j < found.attempts.len() ==> (#[trigger] found.attempts[i]).quality
                    != (#[trigger] found.attempts[j]).quality
        },
{
    if let Ok(found) = searched(image, s, t) {
        lemma2_to64();
        let p1 = match t.max_bytes {
            None => Seq::empty(),
            Some(max) => probes(Edge::LastTrue, fits(image, s, max), 0, 100),
        };
        let p2 = match t.min_psnr {
            None => Seq::empty(),
            Some(floor) => probes(Edge::FirstTrue, clears(image, s, floor), 0, 100),
        };
        if let Some(max) = t.max_bytes {
            lemma_probes_len(Edge::LastTrue, fits(image, s, max), 0, 100, 7);
            lemma_found_is_probed(Edge::LastTrue, fits(image, s, max), 0, 100, 0);
        }
        if let Some(floor) = t.min_psnr {
            lemma_probes_len(Edge::FirstTrue, clears(image, s, floor), 0, 100, 7);
            lemma_found_is_probed(Edge::FirstTrue, clears(image, s, floor), 0, 100, 100);
        }
        let qs = p1 + p2;
        let q = preferred(size_quality(image, s, t)->Ok_0, psnr_quality(image, s, t)->Ok_0);
        assert(qs.contains(q)) by {
            if t.min_psnr is Some {
                let i = p2.index_of(q);
                assert(qs[p1.len() + i] == q);
            } else {
                let i = p1.index_of(q);
                assert(qs[i] == q);
            }
        }
        let i = qs.index_of(q);
        assert(0 <= q <= 100);
        lemma_attempts(image, s, qs);
        assert(tried(attempts_of(image, s, qs), qs[i]));
        lemma_known(image, s, qs, q);
        assert(looked_at(image, s, t, q) =~= qs.push(q));
    }
}

/// Where sizes and PSNRs rise with the quality and both bounds can be met together, a
/// combined target is met with the floor's quality, which is no more than the budget's.
pub proof fn combined_target_takes_the_floors_quality(
    image: Image,
    s: Settings,
    max: usize,
    floor: u32,
    budget_at: int,
    floor_at: int,
)
    requires
        0 <= floor_at <= budget_at <= 100,
        is_step(Edge::LastTrue, fits(image, s, max), 0, 100, budget_at),
        is_step(Edge::FirstTrue, clears(image, s, floor), 0, 100, floor_at),
    ensures
        searched(image, s, Bounds { max_bytes: Some(max), min_psnr: Some(floor) }) matches Ok(found)
            && found.quality == floor_at && found.met,
{
    let small = fits(image, s, max);
    let good = clears(image, s, floor);
    bisection_finds_the_edge(Edge::LastTrue, small, 0, 100, budget_at);
    bisection_finds_the_edge(Edge::FirstTrue, good, 0, 100, floor_at);
    assert(small(floor_at) == Ok::<bool, Error>(true));
    assert(good(floor_at) == Ok::<bool, Error>(true));
}

/// What a search returns: the file at the quality it chose; whether that file keeps within
/// the budget and its decode clears the floor; and the size of the file at each quality it
/// tried.
pub proof fn search_returns_what_it_says(image: Image, s: Settings, t: Bounds, i: int)
    requires
        0 <= i,
    ensures
        searched(image, s, t) is Err && t.max_bytes is None && t.min_psnr is None ==> searched(
            image,
            s,
            t,
        ) == Err::<Found, Error>(Error::InvalidDimensions),
        searched(image, s, t) matches Ok(found) ==> {
            let pixels = decoded_file(found.bytes);
            &&& t.max_bytes is Some || t.min_psnr is Some
            &&& found.bytes == file_of(image, Settings { quality: found.quality as int, ..s })
            &&& found.met <==> {
                &&& (t.max_bytes matches Some(max) ==> found.bytes.len() <= max)
                &&& (t.min_psnr matches Some(floor) ==> pixels is Ok && picture_psnr(
                    unpacked(image.bytes@),
                    unpacked(pixels->Ok_0),
                ) >= floor)
            }
            &&& i < found.attempts.len() ==> found.attempts[i].bytes == file_of(
                image,
                Settings { quality: found.attempts[i].quality as int, ..s },
            ).len() as usize
        },
{
    if let Ok(found) = searched(image, s, t) {
        search_tries_few_qualities(image, s, t);
        let q = preferred(size_quality(image, s, t)->Ok_0, psnr_quality(image, s, t)->Ok_0);
        lemma_chosen_range(image, s, t);
        assert(found.quality == q);
        let qs = looked_at(image, s, t, q);
        assert forall|j: int| 0 <= j < qs.len() implies 0 <= #[trigger] qs[j] <= 255 by {
            lemma_looked_range(image, s, t, q, j);
        }
        lemma_attempt_sizes(image, s, qs, i);
    }
}

/// A chosen quality is on the scale.
proof fn lemma_chosen_range(image: Image, s: Settings, t: Bounds)
    requires
        searched(image, s, t) is Ok,
    ensures
        0 <= preferred(size_quality(image, s, t)->Ok_0, psnr_quality(image, s, t)->Ok_0) <= 100,
{
    lemma2_to64();
    if let Some(max) = t.max_bytes {
        let p = fits(image, s, max);
        lemma_probes_len(Edge::LastTrue, p, 0, 100, 7);
        lemma_found_is_probed(Edge::LastTrue, p, 0, 100, 0);
        let q = bisected(Edge::LastTrue, p, 0, 100, 0)->Ok_0;
        let i = probes(Edge::LastTrue, p, 0, 100).index_of(q);
        assert(0 <= probes(Edge::LastTrue, p, 0, 100)[i] <= 100);
    }
    if let Some(floor) = t.min_psnr {
        let p = clears(image, s, floor);
        lemma_probes_len(Edge::FirstTrue, p, 0, 100, 7);
        lemma_found_is_probed(Edge::FirstTrue, p, 0, 100, 100);
        let q = bisected(Edge::FirstTrue, p, 0, 100, 100)->Ok_0;
        let i = probes(Edge::FirstTrue, p, 0, 100).index_of(q);
        assert(0 <= probes(Edge::FirstTrue, p, 0, 100)[i] <= 100);
    }
}

/// Every quality that is looked at is on the scale.
proof fn lemma_looked_range(image: Image, s: Settings, t: Bounds, q: int, j: int)
    requires
        0 <= q <= 100,
        0 <= j < looked_at(image, s, t, q).len(),
    ensures
        0 <= looked_at(image, s, t, q)[j] <= 100,
{
    lemma2_to64();
    let a = match t.max_bytes {
        None => Seq::empty(),
        Some(max) => probes(Edge::LastTrue, fits(image, s, max), 0, 100),
    };
    let b = match t.min_psnr {
        None => Seq::empty(),
        Some(floor) => probes(Edge::FirstTrue, clears(image, s, floor), 0, 100),
    };
    if let Some(max) = t.max_bytes {
        lemma_probes_len(Edge::LastTrue, fits(image, s, max), 0, 100, 7);
    }
    if let Some(floor) = t.min_psnr {
        lemma_probes_len(Edge::FirstTrue, clears(image, s, floor), 0, 100, 7);
    }
    if j < a.len() {
        assert(looked_at(image, s, t, q)[j] == a[j]);
    } else if j < a.len() + b.len() {
        assert(looked_at(image, s, t, q)[j] == b[j - a.len()]);
    }
}

/// Every attempt holds the size of the file at its quality.
proof fn lemma_attempt_sizes(image: Image, s: Settings, qs: Seq<int>, i: int)
    requires
        forall|j: int| 0 <= j < qs.len() ==> 0 <= #[trigger] qs[j] <= 255,
        0 <= i < attempts_of(image, s, qs).len() || i >= attempts_of(image, s, qs).len(),
        0 <= i,
    ensures
        i < attempts_of(image, s, qs).len() ==> attempts_of(image, s, qs)[i].bytes == file_of(
            image,
            Settings { quality: attempts_of(image, s, qs)[i].quality as int, ..s },
        ).len() as usize,
    decreases qs.len(),
{
    if qs.len() > 0 {
        let head = qs.drop_last();
        assert forall|j: int| 0 <= j < head.len() implies 0 <= #[trigger] head[j] <= 255 by {
            assert(head[j] == qs[j]);
        }
        lemma_attempt_sizes(image, s, head, i);
        let q = qs.last();
        assert(q == qs[qs.len() - 1]);
        assert((q as u8) as int == q);
    }
}

/// A target that sizes or PSNRs can meet exactly at an edge is met there: the largest
/// quality within a budget, the smallest one that clears a floor; a budget that nothing
/// fits gives quality zero and is missed.
pub proof fn single_targets_find_their_edge(
    image: Image,
    s: Settings,
    max: usize,
    floor: u32,
    budget_at: int,
    floor_at: int,
)
    requires
        -1 <= budget_at <= 100,
        0 <= floor_at <= 100,
        is_step(Edge::LastTrue, fits(image, s, max), 0, 100, budget_at),
        is_step(Edge::FirstTrue, clears(image, s, floor), 0, 100, floor_at),
    ensures
        searched(image, s, Bounds { max_bytes: Some(max), min_psnr: None }) matches Ok(found)
            && found.quality == (if budget_at < 0 {
            0
        } else {
            budget_at
        }) && found.met == (budget_at >= 0),
        searched(image, s, Bounds { max_bytes: None, min_psnr: Some(floor) }) matches Ok(found)
            && found.quality == floor_at && found.met,
{
    let small = fits(image, s, max);
    let good = clears(image, s, floor);
    bisection_finds_the_edge(Edge::LastTrue, small, 0, 100, budget_at);
    bisection_finds_the_edge(Edge::FirstTrue, good, 0, 100, floor_at);
    assert(small(if budget_at < 0 {
        0
    } else {
        budget_at
    }) == Ok::<bool, Error>(budget_at >= 0));
    assert(good(floor_at) == Ok::<bool, Error>(true));
}

} // verus!
