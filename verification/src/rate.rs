//! Rate control: the quality that fits a byte budget or clears a PSNR floor.
//!
//! Size and PSNR rise with quality, so each bound is a step over `0..=100` and a
//! bisection finds it ([`bisect`]). A byte budget picks the largest quality within it, a
//! floor the smallest quality that clears it, and the floor wins over the budget. All
//! arithmetic is on integers: PSNR is in centidecibels (dB times 100), from a
//! fixed-point logarithm.

use vstd::arithmetic::power2::{lemma2_to64, lemma_pow2_unfold, pow2};
use vstd::prelude::*;

use crate::encoder::{decode, decoded_file, encode_image, file_of, LossyConfig, Settings};
use crate::error::{Error, Result};
use crate::image::{unpack_pixels, unpacked, Image, PixelLayout};

verus! {

/// `log2(10)`, scaled by `2^16`.
const LOG2_10_Q16: u64 = 217_706;

/// The square of the largest sample.
const PEAK_SQUARED: u64 = 65_025;

/// A byte budget, a PSNR floor, or both.
#[derive(Clone, Copy, PartialEq, Eq, Debug)]
pub struct RateTarget {
    max_bytes: Option<usize>,
    min_psnr_centidb: Option<u32>,
}

/// The bounds of a target.
#[verifier::ext_equal]
pub struct Bounds {
    /// The most bytes.
    pub max_bytes: Option<usize>,
    /// The least PSNR, in centidecibels.
    pub min_psnr: Option<u32>,
}

impl View for RateTarget {
    type V = Bounds;

    closed spec fn view(&self) -> Bounds {
        Bounds { max_bytes: self.max_bytes, min_psnr: self.min_psnr_centidb }
    }
}

impl Default for RateTarget {
    fn default() -> (r: Self)
        ensures
            r@ == (Bounds { max_bytes: None, min_psnr: None }),
    {
        RateTarget { max_bytes: None, min_psnr_centidb: None }
    }
}

impl RateTarget {
    /// The largest quality whose encode fits within `max_bytes`.
    #[must_use]
    pub fn size(max_bytes: usize) -> (r: Self)
        ensures
            r@ == (Bounds { max_bytes: Some(max_bytes), min_psnr: None }),
    {
        RateTarget { max_bytes: Some(max_bytes), min_psnr_centidb: None }
    }

    /// The smallest quality whose reconstruction has a PSNR of at least
    /// `min_psnr_centidb` (dB times 100).
    #[must_use]
    pub fn psnr(min_psnr_centidb: u32) -> (r: Self)
        ensures
            r@ == (Bounds { max_bytes: None, min_psnr: Some(min_psnr_centidb) }),
    {
        RateTarget { max_bytes: None, min_psnr_centidb: Some(min_psnr_centidb) }
    }

    /// Add a byte budget.
    #[must_use]
    pub fn with_size(self, max_bytes: usize) -> (r: Self)
        ensures
            r@ == (Bounds { max_bytes: Some(max_bytes), ..self@ }),
    {
        RateTarget { max_bytes: Some(max_bytes), min_psnr_centidb: self.min_psnr_centidb }
    }

    /// Add a PSNR floor.
    #[must_use]
    pub fn with_psnr(self, min_psnr_centidb: u32) -> (r: Self)
        ensures
            r@ == (Bounds { min_psnr: Some(min_psnr_centidb), ..self@ }),
    {
        RateTarget { max_bytes: self.max_bytes, min_psnr_centidb: Some(min_psnr_centidb) }
    }

    /// Whether there is any bound.
    #[must_use]
    pub fn is_set(self) -> (r: bool)
        ensures
            r == (self@.max_bytes is Some || self@.min_psnr is Some),
    {
        self.max_bytes.is_some() || self.min_psnr_centidb.is_some()
    }
}

/// One encode of a search.
#[derive(Clone, Copy, PartialEq, Eq, Debug)]
pub struct Attempt {
    /// The quality.
    pub quality: u8,
    /// The size of the file.
    pub bytes: usize,
}

/// The outcome of a search.
#[derive(Clone, Debug)]
pub struct RateSearch {
    bytes: Vec<u8>,
    quality: u8,
    met: bool,
    attempts: Vec<Attempt>,
}

/// What a search found.
#[verifier::ext_equal]
pub struct Found {
    /// The chosen file.
    pub bytes: Seq<u8>,
    /// The chosen quality.
    pub quality: u8,
    /// Whether it meets the target.
    pub met: bool,
    /// Every encode, in order.
    pub attempts: Seq<Attempt>,
}

impl View for RateSearch {
    type V = Found;

    closed spec fn view(&self) -> Found {
        Found {
            bytes: self.bytes@,
            quality: self.quality,
            met: self.met,
            attempts: self.attempts@,
        }
    }
}

impl RateSearch {
    /// The chosen file.
    #[must_use]
    pub fn bytes(&self) -> (r: &[u8])
        ensures
            r@ == self@.bytes,
    {
        self.bytes.as_slice()
    }

    /// The chosen file.
    #[must_use]
    pub fn into_bytes(self) -> (r: Vec<u8>)
        ensures
            r@ == self@.bytes,
    {
        self.bytes
    }

    /// The chosen quality, `0..=100`.
    #[must_use]
    pub fn quality(&self) -> (r: u8)
        ensures
            r == self@.quality,
    {
        self.quality
    }

    /// Whether the chosen file meets the target; the closest quality is chosen if none
    /// does.
    #[must_use]
    pub fn met(&self) -> (r: bool)
        ensures
            r == self@.met,
    {
        self.met
    }

    /// Every encode, in order.
    #[must_use]
    pub fn attempts(&self) -> (r: &[Attempt])
        ensures
            r@ == self@.attempts,
    {
        self.attempts.as_slice()
    }
}

/// The bytes of channel `c` of a pixel: blue, green, red.
pub open spec fn channel(p: u32, c: int) -> int {
    if c == 0 {
        p as int % 256
    } else if c == 1 {
        (p as int / 256) % 256
    } else {
        (p as int / 65536) % 256
    }
}

/// The squared error of one pixel's three colours.
pub open spec fn pixel_error(s: u32, c: u32) -> int {
    (channel(s, 0) - channel(c, 0)) * (channel(s, 0) - channel(c, 0)) + (channel(s, 1) - channel(
        c,
        1,
    )) * (channel(s, 1) - channel(c, 1)) + (channel(s, 2) - channel(c, 2)) * (channel(s, 2)
        - channel(c, 2))
}

/// The squared error of the first `n` pixels.
pub open spec fn picture_error(s: Seq<u32>, c: Seq<u32>, n: int) -> int
    decreases n,
{
    if n <= 0 {
        0
    } else {
        picture_error(s, c, n - 1) + pixel_error(s[n - 1], c[n - 1])
    }
}

/// The bits after the point of `log2(m / 2^31)` for `m` in `2^31..2^32`: squaring doubles
/// the logarithm, and each doubling yields a bit.
pub open spec fn log2_bits(m: int, k: nat) -> int
    decreases k,
{
    if k == 0 {
        0
    } else {
        let sq = (m * m) / 0x8000_0000;
        if sq >= 0x1_0000_0000 {
            pow2((k - 1) as nat) + log2_bits(sq / 2, (k - 1) as nat)
        } else {
            log2_bits(sq, (k - 1) as nat)
        }
    }
}

/// How often `v` can be halved before it is one.
pub open spec fn whole_log2(v: int) -> int
    decreases v,
{
    if v <= 1 {
        0
    } else {
        1 + whole_log2(v / 2)
    }
}

/// `v` scaled into `2^31..2^32`.
pub open spec fn mantissa(v: int) -> int
    decreases
            if v >= 0x1_0000_0000 {
                v
            } else {
                0x1_0000_0000 - v
            },
{
    if v <= 0 {
        0
    } else if v >= 0x1_0000_0000 {
        mantissa(v / 2)
    } else if v < 0x8000_0000 {
        mantissa(2 * v)
    } else {
        v
    }
}

/// `log2(v)`, scaled by `2^16`, with sixteen bits after the point; zero for zero.
pub open spec fn log2_q16(v: int) -> int {
    if v <= 0 {
        0
    } else {
        65536 * whole_log2(v) + log2_bits(mantissa(v), 16)
    }
}

/// The PSNR of a squared error over `n` samples, in centidecibels:
/// `1000 log2(255^2 n / error) / log2(10)`. Without an error it is the largest number.
pub open spec fn psnr_of(error: int, n: int) -> u32 {
    if error == 0 {
        u32::MAX
    } else {
        let num = if 65025 * n > u64::MAX {
            u64::MAX as int
        } else {
            65025 * n
        };
        let ratio = log2_q16(num) - log2_q16(error);
        let c = (if ratio < 0 {
            0
        } else {
            ratio
        }) * 1000 / 217706;
        if c > u32::MAX {
            u32::MAX
        } else {
            c as u32
        }
    }
}

/// The PSNR of a picture against its source, over the pixels that both have.
pub open spec fn picture_psnr(source: Seq<u32>, candidate: Seq<u32>) -> u32 {
    let n = if source.len() < candidate.len() {
        source.len() as int
    } else {
        candidate.len() as int
    };
    psnr_of(picture_error(source, candidate, n), 3 * n)
}

/// The whole part of a logarithm is below the number of bits.
pub proof fn lemma_whole_log2(v: int, k: nat)
    requires
        1 <= k,
        v < pow2(k),
    ensures
        0 <= whole_log2(v) < k,
    decreases k,
{
    lemma2_to64();
    if v > 1 {
        lemma_pow2_unfold(k);
        if k == 1 {
            assert(pow2(1) == 2);
        } else {
            lemma_whole_log2(v / 2, (k - 1) as nat);
        }
    }
}

/// `log2(v)`, scaled by `2^16`.
pub fn fixed_log2(v: u64) -> (r: u64)
    ensures
        r == log2_q16(v as int),
        r < 64 * 65536,
{
    if v == 0 {
        return 0;
    }
    proof {
        lemma2_to64();
        lemma_whole_log2(v as int, 64);
    }
    let mut whole: u64 = 0;
    let mut x: u64 = v;
    while x > 1
        invariant
            1 <= x,
            whole + whole_log2(x as int) == whole_log2(v as int),
            whole_log2(v as int) < 64,
            0 <= whole_log2(x as int),
        decreases x,
    {
        whole = whole + 1;
        x = x / 2;
        proof {
            lemma2_to64();
            lemma_whole_log2(x as int, 64);
        }
    }
    let mut m: u64 = v;
    while m >= 0x1_0000_0000
        invariant
            1 <= m,
            mantissa(m as int) == mantissa(v as int),
        decreases m,
    {
        m = m / 2;
    }
    while m < 0x8000_0000
        invariant
            1 <= m < 0x1_0000_0000,
            mantissa(m as int) == mantissa(v as int),
        decreases 0x1_0000_0000 - m,
    {
        m = 2 * m;
    }
    let ghost m0 = m as int;
    let mut bits: u64 = 0;
    let mut weight: u64 = 65536;
    let mut k: u32 = 16;
    proof {
        lemma2_to64();
    }
    while k > 0
        invariant
            k <= 16,
            weight == pow2(k as nat),
            0x8000_0000 <= m < 0x1_0000_0000,
            bits + log2_bits(m as int, k as nat) == log2_bits(m0, 16),
            bits + weight <= 65536,
        decreases k,
    {
        proof {
            lemma_pow2_unfold(k as nat);
            assert(0x8000_0000 * 0x8000_0000 <= m * m <= 0xffff_ffff * 0xffff_ffff)
                by (nonlinear_arith)
                requires
                    0x8000_0000 <= m <= 0xffff_ffff,
            ;
        }
        let sq: u64 = (m * m) / 0x8000_0000;
        weight = weight / 2;
        k = k - 1;
        if sq >= 0x1_0000_0000 {
            bits = bits + weight;
            m = sq / 2;
        } else {
            m = sq;
        }
    }
    proof {
        lemma2_to64();
    }
    65536 * whole + bits
}

/// The PSNR of `candidate` against `source`, both packed pixels, over the three colours
/// and in centidecibels (dB times 100); the largest number if they are equal.
pub fn psnr_centidb(source: &[u32], candidate: &[u32]) -> (r: u32)
    requires
        source@.len() <= 0x100_0000_0000,
    ensures
        r == picture_psnr(source@, candidate@),
{
    let slen: usize = source.len();
    let clen: usize = candidate.len();
    let count: usize = if slen < clen {
        slen
    } else {
        clen
    };
    let mut sse: u64 = 0;
    let mut i: usize = 0;
    while i < count
        invariant
            i <= count,
            count <= slen,
            count <= clen,
            slen == source@.len(),
            clen == candidate@.len(),
            slen <= 0x100_0000_0000,
            sse == picture_error(source@, candidate@, i as int),
            sse <= 195075 * i,
        decreases count - i,
    {
        let s: u32 = source[i];
        let c: u32 = candidate[i];
        let d0: i64 = (s % 256) as i64 - (c % 256) as i64;
        let d1: i64 = ((s / 256) % 256) as i64 - ((c / 256) % 256) as i64;
        let d2: i64 = ((s / 65536) % 256) as i64 - ((c / 65536) % 256) as i64;
        proof {
            assert(0 <= d0 * d0 <= 65025) by (nonlinear_arith)
                requires
                    -255 <= d0 <= 255,
            ;
            assert(0 <= d1 * d1 <= 65025) by (nonlinear_arith)
                requires
                    -255 <= d1 <= 255,
            ;
            assert(0 <= d2 * d2 <= 65025) by (nonlinear_arith)
                requires
                    -255 <= d2 <= 255,
            ;
        }
        sse = sse + (d0 * d0) as u64 + (d1 * d1) as u64 + (d2 * d2) as u64;
        i = i + 1;
    }
    if sse == 0 {
        return u32::MAX;
    }
    let n: u64 = 3 * count as u64;
    let num: u64 = PEAK_SQUARED * n;
    let a: u64 = fixed_log2(num);
    let b: u64 = fixed_log2(sse);
    let ratio: u64 = if a < b {
        0
    } else {
        a - b
    };
    let centidb: u64 = ratio * 1000 / LOG2_10_Q16;
    centidb as u32
}

/// Which edge of a step a bisection looks for.
#[derive(Clone, Copy, PartialEq, Eq, Debug, Structural)]
pub enum Edge {
    /// The last place where the predicate holds.
    LastTrue,
    /// The first place where the predicate holds.
    FirstTrue,
}

/// A predicate that may fail.
pub type Pred = spec_fn(int) -> Result<bool>;

/// Bisect `a..=b`, with `best` the best place so far: probe the middle, and go on above
/// or below it.
pub open spec fn bisected(edge: Edge, p: Pred, a: int, b: int, best: int) -> Result<int>
    decreases b - a + 1,
{
    if a > b {
        Ok(best)
    } else {
        let mid = (a + b) / 2;
        match p(mid) {
            Err(e) => Err(e),
            Ok(holds) => {
                let up = holds == (edge == Edge::LastTrue);
                let next = if holds {
                    mid
                } else {
                    best
                };
                if up {
                    bisected(edge, p, mid + 1, b, next)
                } else {
                    bisected(edge, p, a, mid - 1, next)
                }
            },
        }
    }
}

/// The places that a bisection probes, in order; the last one may fail.
pub open spec fn probes(edge: Edge, p: Pred, a: int, b: int) -> Seq<int>
    decreases b - a + 1,
{
    if a > b {
        Seq::empty()
    } else {
        let mid = (a + b) / 2;
        seq![mid] + (match p(mid) {
            Err(e) => Seq::empty(),
            Ok(holds) => if holds == (edge == Edge::LastTrue) {
                probes(edge, p, mid + 1, b)
            } else {
                probes(edge, p, a, mid - 1)
            },
        })
    }
}

/// What a bisection returns if the predicate holds nowhere it looks.
pub open spec fn fallback(edge: Edge, lo: int, hi: int) -> int {
    match edge {
        Edge::LastTrue => lo,
        Edge::FirstTrue => hi,
    }
}

/// The place that a bisection of `lo..=hi` finds.
pub open spec fn bisect(edge: Edge, p: Pred, lo: int, hi: int) -> Result<int> {
    bisected(edge, p, lo, hi, fallback(edge, lo, hi))
}

/// Whether a predicate never fails and is a step with its edge at `at`: it holds on
/// `lo..=at` for the last true place, on `at..=hi` for the first.
pub open spec fn is_step(edge: Edge, p: Pred, lo: int, hi: int, at: int) -> bool {
    forall|q: int|
        lo <= q <= hi ==> #[trigger] p(q) == Ok::<bool, Error>(
            match edge {
                Edge::LastTrue => q <= at,
                Edge::FirstTrue => q >= at,
            },
        )
}

/// A bisection finds the edge of a step: the largest place where a falling predicate
/// holds, the smallest where a rising one does. One that holds nowhere gives `lo` or
/// `hi`.
pub proof fn bisection_finds_the_edge(edge: Edge, p: Pred, lo: int, hi: int, at: int)
    requires
        lo <= hi,
        is_step(edge, p, lo, hi, at),
        lo - 1 <= at <= hi + 1,
    ensures
        bisect(edge, p, lo, hi) == Ok::<int, Error>(
            match edge {
                Edge::LastTrue => if at < lo {
                    lo
                } else if at > hi {
                    hi
                } else {
                    at
                },
                Edge::FirstTrue => if at > hi {
                    hi
                } else if at < lo {
                    lo
                } else {
                    at
                },
            },
        ),
{
    lemma_bisected(edge, p, lo, hi, at, lo, hi, fallback(edge, lo, hi));
}

proof fn lemma_bisected(edge: Edge, p: Pred, lo: int, hi: int, at: int, a: int, b: int, best: int)
    requires
        lo <= hi,
        is_step(edge, p, lo, hi, at),
        lo - 1 <= at <= hi + 1,
        lo <= a,
        b <= hi,
        a <= b + 1,
        edge == Edge::LastTrue ==> a - 1 <= at && at <= b + (if b == hi {
            1int
        } else {
            0
        }) && best == (if a == lo {
            lo
        } else {
            a - 1
        }),
        edge == Edge::FirstTrue ==> at <= b + 1 && a - (if a == lo {
            1int
        } else {
            0
        }) <= at && best == (if b == hi {
            hi
        } else {
            b + 1
        }),
    ensures
        bisected(edge, p, a, b, best) == Ok::<int, Error>(
            match edge {
                Edge::LastTrue => if at < lo {
                    lo
                } else if at > hi {
                    hi
                } else {
                    at
                },
                Edge::FirstTrue => if at > hi {
                    hi
                } else if at < lo {
                    lo
                } else {
                    at
                },
            },
        ),
    decreases b - a + 1,
{
    if a <= b {
        let mid = (a + b) / 2;
        assert(p(mid) is Ok);
        let holds = p(mid)->Ok_0;
        let next = if holds {
            mid
        } else {
            best
        };
        if holds == (edge == Edge::LastTrue) {
            lemma_bisected(edge, p, lo, hi, at, mid + 1, b, next);
        } else {
            lemma_bisected(edge, p, lo, hi, at, a, mid - 1, next);
        }
    }
}

/// A bisection in progress.
#[derive(Clone, Copy, Debug)]
struct Bisection {
    edge: Edge,
    a: i16,
    b: i16,
    best: u8,
}

impl Bisection {
    /// The numbers stay in range.
    spec fn wf(&self) -> bool {
        &&& 0 <= self.a <= 256
        &&& -1 <= self.b <= 255
    }

    /// How many places are left.
    spec fn left(&self) -> int {
        if self.a <= self.b {
            self.b - self.a + 1
        } else {
            0
        }
    }

    /// What the bisection will find.
    spec fn finds(&self, p: Pred) -> Result<int> {
        bisected(self.edge, p, self.a as int, self.b as int, self.best as int)
    }

    /// What it will probe.
    spec fn probes(&self, p: Pred) -> Seq<int> {
        probes(self.edge, p, self.a as int, self.b as int)
    }

    /// Whether `next` goes on from what the predicate says at the middle.
    spec fn goes_on(&self, mid: u8, holds: bool, next: Bisection) -> bool {
        &&& next.edge == self.edge
        &&& next.best == (if holds {
            mid
        } else {
            self.best
        })
        &&& if holds == (self.edge == Edge::LastTrue) {
            next.a == mid + 1 && next.b == self.b
        } else {
            next.a == self.a && next.b == mid - 1
        }
    }

    /// A step keeps what is found, and is the next probe.
    proof fn lemma_goes_on(self, mid: u8, holds: bool, next: Bisection, p: Pred)
        requires
            self.goes_on(mid, holds, next),
            mid == (self.a + self.b) / 2,
            self.a <= self.b,
            p(mid as int) == Ok::<bool, Error>(holds),
        ensures
            next.finds(p) == self.finds(p),
            self.probes(p) == seq![mid as int] + next.probes(p),
    {
    }

    fn new(edge: Edge, lo: u8, hi: u8) -> (r: Self)
        ensures
            r.wf(),
            r.edge == edge,
            r.a == lo,
            r.b == hi,
            r.best == fallback(edge, lo as int, hi as int),
    {
        let best: u8 = match edge {
            Edge::LastTrue => lo,
            Edge::FirstTrue => hi,
        };
        Bisection { edge, a: lo as i16, b: hi as i16, best }
    }

    /// The next place to probe.
    fn probe(&self) -> (r: Option<u8>)
        requires
            self.wf(),
        ensures
            r is Some <==> self.a <= self.b,
            r matches Some(mid) ==> mid == (self.a + self.b) / 2 && self.a <= mid <= self.b,
    {
        if self.a <= self.b {
            Some(((self.a + self.b) / 2) as u8)
        } else {
            None
        }
    }

    /// Go on from whether the predicate holds at the probe.
    fn answer(&mut self, mid: u8, holds: bool)
        requires
            old(self).wf(),
            mid == (old(self).a + old(self).b) / 2,
            old(self).a <= mid <= old(self).b,
        ensures
            final(self).wf(),
            final(self).edge == old(self).edge,
            final(self).left() < old(self).left(),
            old(self).goes_on(mid, holds, *final(self)),
            old(self).a <= final(self).a,
            final(self).b <= old(self).b,
    {
        if holds {
            self.best = mid;
        }
        if holds == matches!(self.edge, Edge::LastTrue) {
            self.a = mid as i16 + 1;
        } else {
            self.b = mid as i16 - 1;
        }
    }
}

/// Whether a predicate answers like `p`.
pub open spec fn answers_like<F: Fn(u8) -> Result<bool>>(pred: F, p: Pred) -> bool {
    forall|q: u8, r: Result<bool>|
        #[trigger] call_ensures(pred, (q,), r) ==> r == p(q as int)
}

/// Bisect `lo..=hi` for an edge of `pred`.
fn bisect_with<F: Fn(u8) -> Result<bool>>(edge: Edge, lo: u8, hi: u8, pred: F) -> (r: Result<u8>)
    requires
        forall|q: u8| lo <= q <= hi ==> call_requires(pred, (q,)),
    ensures
        forall|p: Pred| #[trigger]
            answers_like(pred, p) ==> match r {
                Ok(q) => bisect(edge, p, lo as int, hi as int) == Ok::<int, Error>(q as int),
                Err(e) => bisect(edge, p, lo as int, hi as int) == Err::<int, Error>(e),
            },
{
    let mut s: Bisection = Bisection::new(edge, lo, hi);
    while s.a <= s.b
        invariant
            s.wf(),
            s.edge == edge,
            lo <= s.a,
            s.b <= hi,
            forall|q: u8| lo <= q <= hi ==> call_requires(pred, (q,)),
            forall|p: Pred| #[trigger]
                answers_like(pred, p) ==> s.finds(p) == bisect(edge, p, lo as int, hi as int),
        decreases s.left(),
    {
        if let Some(mid) = s.probe() {
            let answer: Result<bool> = pred(mid);
            let ghost before = s;
            match answer {
                Err(e) => {
                    assert forall|p: Pred| #[trigger] answers_like(pred, p) implies bisect(
                        edge,
                        p,
                        lo as int,
                        hi as int,
                    ) == Err::<int, Error>(e) by {
                        assert(p(mid as int) == answer);
                        assert(s.finds(p) == Err::<int, Error>(e));
                    }
                    return Err(e);
                },
                Ok(holds) => {
                    s.answer(mid, holds);
                    assert forall|p: Pred| #[trigger] answers_like(pred, p) implies s.finds(p)
                        == bisect(edge, p, lo as int, hi as int) by {
                        assert(p(mid as int) == answer);
                        before.lemma_goes_on(mid, holds, s, p);
                    }
                },
            }
        }
    }
    Ok(s.best)
}

/// The largest `q` in `lo..=hi` for which `pred` holds, if it holds up to some place and
/// not above it; `lo` if it holds nowhere.
///
/// # Errors
///
/// The first error of `pred`.
pub fn last_true<F: Fn(u8) -> Result<bool>>(lo: u8, hi: u8, pred: F) -> (r: Result<u8>)
    requires
        forall|q: u8| lo <= q <= hi ==> call_requires(pred, (q,)),
    ensures
        forall|p: Pred| #[trigger]
            answers_like(pred, p) ==> match r {
                Ok(q) => bisect(Edge::LastTrue, p, lo as int, hi as int) == Ok::<int, Error>(
                    q as int,
                ),
                Err(e) => bisect(Edge::LastTrue, p, lo as int, hi as int) == Err::<int, Error>(e),
            },
{
    bisect_with(Edge::LastTrue, lo, hi, pred)
}

/// The smallest `q` in `lo..=hi` for which `pred` holds, if it holds from some place on
/// and not below it; `hi` if it holds nowhere.
///
/// # Errors
///
/// The first error of `pred`.
pub fn first_true<F: Fn(u8) -> Result<bool>>(lo: u8, hi: u8, pred: F) -> (r: Result<u8>)
    requires
        forall|q: u8| lo <= q <= hi ==> call_requires(pred, (q,)),
    ensures
        forall|p: Pred| #[trigger]
            answers_like(pred, p) ==> match r {
                Ok(q) => bisect(Edge::FirstTrue, p, lo as int, hi as int) == Ok::<int, Error>(
                    q as int,
                ),
                Err(e) => bisect(Edge::FirstTrue, p, lo as int, hi as int) == Err::<int, Error>(e),
            },
{
    bisect_with(Edge::FirstTrue, lo, hi, pred)
}

/// The settings of a search at quality `q`.
pub open spec fn at_quality(s: Settings, q: int) -> Settings {
    Settings { quality: q, ..s }
}

/// The file at quality `q`.
pub open spec fn file_at(image: Image, s: Settings, q: int) -> Seq<u8> {
    file_of(image, at_quality(s, q))
}

/// The PSNR at quality `q`, or why the file does not decode.
pub open spec fn psnr_at(image: Image, s: Settings, q: int) -> Result<u32> {
    match decoded_file(file_at(image, s, q)) {
        Err(e) => Err(e),
        Ok(pixels) => Ok(picture_psnr(unpacked(image.bytes@), unpacked(pixels))),
    }
}

/// Whether quality `q` fits the budget.
pub open spec fn fits(image: Image, s: Settings, max: usize) -> Pred {
    |q: int| Ok::<bool, Error>(file_at(image, s, q).len() <= max)
}

/// Whether quality `q` clears the floor.
pub open spec fn clears(image: Image, s: Settings, floor: u32) -> Pred {
    |q: int|
        match psnr_at(image, s, q) {
            Err(e) => Err::<bool, Error>(e),
            Ok(p) => Ok::<bool, Error>(p >= floor),
        }
}

/// The quality that the budget asks for, if there is one.
pub open spec fn size_quality(image: Image, s: Settings, t: Bounds) -> Result<Option<int>> {
    match t.max_bytes {
        None => Ok(None),
        Some(max) => match bisect(Edge::LastTrue, fits(image, s, max), 0, 100) {
            Err(e) => Err(e),
            Ok(q) => Ok(Some(q)),
        },
    }
}

/// The quality that the floor asks for, if there is one.
pub open spec fn psnr_quality(image: Image, s: Settings, t: Bounds) -> Result<Option<int>> {
    match t.min_psnr {
        None => Ok(None),
        Some(floor) => match bisect(Edge::FirstTrue, clears(image, s, floor), 0, 100) {
            Err(e) => Err(e),
            Ok(q) => Ok(Some(q)),
        },
    }
}

/// The quality that is chosen: the floor's (`b`) if there is one, else the budget's; 75
/// without any.
pub open spec fn preferred(a: Option<int>, b: Option<int>) -> int {
    match (a, b) {
        (_, Some(y)) => y,
        (Some(x), None) => x,
        (None, None) => 75,
    }
}

/// Whether quality `q` meets the target.
pub open spec fn meets(image: Image, s: Settings, t: Bounds, q: int) -> bool {
    &&& (t.max_bytes matches Some(max) ==> file_at(image, s, q).len() <= max)
    &&& (t.min_psnr matches Some(floor) ==> psnr_at(image, s, q) is Ok && psnr_at(image, s, q)->Ok_0
        >= floor)
}

/// The qualities that a search looks at, in order, up to the chosen one.
pub open spec fn looked_at(image: Image, s: Settings, t: Bounds, chosen: int) -> Seq<int> {
    (match t.max_bytes {
        None => Seq::empty(),
        Some(max) => probes(Edge::LastTrue, fits(image, s, max), 0, 100),
    }) + (match t.min_psnr {
        None => Seq::empty(),
        Some(floor) => probes(Edge::FirstTrue, clears(image, s, floor), 0, 100),
    }) + seq![chosen]
}

/// Whether an attempt at quality `q` is among `done`.
pub open spec fn tried(done: Seq<Attempt>, q: int) -> bool {
    exists|i: int| 0 <= i < done.len() && (#[trigger] done[i]).quality == q
}

/// The attempts of a search that looks at `qs` in order: a quality is encoded when it is
/// first looked at.
pub open spec fn attempts_of(image: Image, s: Settings, qs: Seq<int>) -> Seq<Attempt>
    decreases qs.len(),
{
    if qs.len() == 0 {
        Seq::empty()
    } else {
        let done = attempts_of(image, s, qs.drop_last());
        let q = qs.last();
        if tried(done, q) {
            done
        } else {
            done.push(
                Attempt { quality: q as u8, bytes: file_at(image, s, q).len() as usize },
            )
        }
    }
}

/// What a search for `t` yields.
pub open spec fn searched(image: Image, s: Settings, t: Bounds) -> Result<Found> {
    if t.max_bytes is None && t.min_psnr is None {
        Err(Error::InvalidDimensions)
    } else {
        match size_quality(image, s, t) {
            Err(e) => Err(e),
            Ok(a) => match psnr_quality(image, s, t) {
                Err(e) => Err(e),
                Ok(b) => {
                    let q = preferred(a, b);
                    Ok(
                        Found {
                            bytes: file_at(image, s, q),
                            quality: q as u8,
                            met: meets(image, s, t, q),
                            attempts: attempts_of(image, s, looked_at(image, s, t, q)),
                        },
                    )
                },
            },
        }
    }
}

/// A search in progress: the encodes so far, each made once.
struct Searcher<'a> {
    image: &'a Image,
    template: &'a LossyConfig,
    source: Option<Vec<u32>>,
    cache: Vec<Option<Vec<u8>>>,
    attempts: Vec<Attempt>,
}

impl<'a> Searcher<'a> {
    /// The cache holds the files of the attempts, and the source its pixels.
    #[verifier::opaque]
    spec fn wf(&self) -> bool {
        &&& self.image.wf()
        &&& self.cache@.len() == 101
        &&& forall|q: int|
            0 <= q < 101 ==> (#[trigger] self.cache@[q] is Some <==> tried(self.attempts@, q))
        &&& forall|q: int|
            0 <= q < 101 && self.cache@[q] is Some ==> (#[trigger] self.cache@[q])->0@ == file_at(
                *self.image,
                self.template@,
                q,
            )
        &&& (self.source matches Some(p) ==> p@ == unpacked(self.image.bytes@))
    }

    /// The attempts are those of looking at `qs`.
    #[verifier::opaque]
    spec fn looked(&self, qs: Seq<int>) -> bool {
        self.attempts@ == attempts_of(*self.image, self.template@, qs)
    }

    fn new(image: &'a Image, template: &'a LossyConfig) -> (r: Self)
        requires
            image.wf(),
        ensures
            r.wf(),
            r.image == image,
            r.template == template,
            r.looked(Seq::empty()),
    {
        proof {
            reveal(Searcher::wf);
            reveal(Searcher::looked);
        }
        let mut cache: Vec<Option<Vec<u8>>> = Vec::new();
        let mut i: usize = 0;
        while i < 101
            invariant
                i <= 101,
                cache@.len() == i,
                forall|q: int| 0 <= q < i ==> #[trigger] cache@[q] is None,
            decreases 101 - i,
        {
            cache.push(None);
            i = i + 1;
        }
        Searcher { image, template, source: None, cache, attempts: Vec::new() }
    }

    /// Encode at `quality`, unless that was done.
    fn encode_at(&mut self, quality: u8, Ghost(qs): Ghost<Seq<int>>) -> (r: Result<()>)
        requires
            old(self).wf(),
            old(self).looked(qs),
            quality <= 100,
        ensures
            final(self).wf(),
            final(self).image == old(self).image,
            final(self).template == old(self).template,
            final(self).looked(qs.push(quality as int)),
            r is Ok,
            final(self).cache@[quality as int] is Some,
    {
        proof {
            reveal(Searcher::wf);
            reveal(Searcher::looked);
        }
        let idx: usize = quality as usize;
        let ghost more = qs.push(quality as int);
        proof {
            assert(more.drop_last() =~= qs);
        }
        let known: bool = self.cache[idx].is_some();
        if !known {
            let config: LossyConfig = self.template.with_quality(quality);
            let bytes: Vec<u8> = match encode_image(self.image, &config) {
                Ok(bytes) => bytes,
                Err(e) => {
                    return Err(e);
                },
            };
            let ghost before = *self;
            let len: usize = bytes.len();
            self.attempts.push(Attempt { quality, bytes: len });
            self.cache.set(idx, Some(bytes));
            proof {
                assert(config@ == at_quality(self.template@, quality as int));
                assert forall|q: int| 0 <= q < 101 implies (#[trigger] self.cache@[q] is Some <==> tried(
                    self.attempts@,
                    q,
                )) by {
                    let a = before.attempts@;
                    let b = self.attempts@;
                    if q == quality {
                        assert(b[a.len() as int].quality == q);
                    } else {
                        assert(before.cache@[q] is Some <==> tried(a, q));
                        if tried(a, q) {
                            let i = choose|i: int| 0 <= i < a.len() && (#[trigger] a[i]).quality == q;
                            assert(b[i].quality == q);
                        }
                        if tried(b, q) {
                            let i = choose|i: int| 0 <= i < b.len() && (#[trigger] b[i]).quality == q;
                            assert(a[i].quality == q);
                        }
                    }
                }
                assert(!tried(before.attempts@, quality as int));
            }
        }
        Ok(())
    }

    /// Whether the file at `quality` fits `max` bytes.
    fn fits_at(&mut self, quality: u8, max: usize, Ghost(qs): Ghost<Seq<int>>) -> (r: Result<bool>)
        requires
            old(self).wf(),
            old(self).looked(qs),
            quality <= 100,
        ensures
            final(self).wf(),
            final(self).image == old(self).image,
            final(self).template == old(self).template,
            final(self).looked(qs.push(quality as int)),
            r == fits(*old(self).image, old(self).template@, max)(quality as int),
    {
        proof {
            reveal(Searcher::wf);
            reveal(Searcher::looked);
        }
        match self.encode_at(quality, Ghost(qs)) {
            Ok(_) => {},
            Err(e) => {
                return Err(e);
            },
        }
        match &self.cache[quality as usize] {
            Some(bytes) => Ok(bytes.len() <= max),
            None => Ok(false),
        }
    }

    /// Whether the file at `quality` has a PSNR of at least `floor`.
    fn clears_at(&mut self, quality: u8, floor: u32, Ghost(qs): Ghost<Seq<int>>) -> (r: Result<bool>)
        requires
            old(self).wf(),
            old(self).looked(qs),
            quality <= 100,
        ensures
            final(self).wf(),
            final(self).image == old(self).image,
            final(self).template == old(self).template,
            final(self).looked(qs.push(quality as int)),
            r == clears(*old(self).image, old(self).template@, floor)(quality as int),
    {
        proof {
            reveal(Searcher::wf);
            reveal(Searcher::looked);
        }
        match self.encode_at(quality, Ghost(qs)) {
            Ok(_) => {},
            Err(e) => {
                return Err(e);
            },
        }
        let unpack: bool = self.source.is_none();
        if unpack {
            self.source = Some(unpack_pixels(self.image.layout(), self.image.as_bytes()));
        }
        let decoded: Image = match &self.cache[quality as usize] {
            Some(bytes) => match decode(bytes.as_slice()) {
                Ok(image) => image,
                Err(e) => {
                    return Err(e);
                },
            },
            None => {
                return Ok(false);
            },
        };
        let candidate: Vec<u32> = unpack_pixels(PixelLayout::Rgba8, decoded.as_bytes());
        proof {
            lemma_pixel_count(*self.image);
        }
        match &self.source {
            Some(source) => Ok(psnr_centidb(source.as_slice(), candidate.as_slice()) >= floor),
            None => Ok(false),
        }
    }
}

proof fn lemma_pixel_count(image: Image)
    requires
        image.wf(),
    ensures
        unpacked(image.bytes@).len() <= 0x100_0000_0000,
{
    let w = image.dims.width as int;
    let h = image.dims.height as int;
    assert(w * h <= 16383 * 16383) by (nonlinear_arith)
        requires
            0 <= w <= 16383,
            0 <= h <= 16383,
    ;
}

/// A bound of a target.
#[derive(Clone, Copy, Debug)]
enum Bound {
    Size(usize),
    Psnr(u32),
}

impl Bound {
    /// The edge that the bound asks for.
    spec fn edge(&self) -> Edge {
        match self {
            Bound::Size(_) => Edge::LastTrue,
            Bound::Psnr(_) => Edge::FirstTrue,
        }
    }

    /// Whether a quality is within the bound.
    #[verifier::opaque]
    spec fn pred(&self, image: Image, s: Settings) -> Pred {
        match self {
            Bound::Size(max) => fits(image, s, *max),
            Bound::Psnr(floor) => clears(image, s, *floor),
        }
    }
}

/// Whether the file at `quality` is within the bound.
fn bound_at(
    searcher: &mut Searcher<'_>,
    bound: Bound,
    quality: u8,
    Ghost(qs): Ghost<Seq<int>>,
) -> (r: Result<bool>)
    requires
        old(searcher).wf(),
        old(searcher).looked(qs),
        quality <= 100,
    ensures
        final(searcher).wf(),
        final(searcher).image == old(searcher).image,
        final(searcher).template == old(searcher).template,
        final(searcher).looked(qs.push(quality as int)),
        r == bound.pred(*old(searcher).image, old(searcher).template@)(quality as int),
{
    proof {
        reveal(Bound::pred);
    }
    match bound {
        Bound::Size(max) => searcher.fits_at(quality, max, Ghost(qs)),
        Bound::Psnr(floor) => searcher.clears_at(quality, floor, Ghost(qs)),
    }
}

/// Bisect the qualities for the edge of a bound.
fn search_bound(searcher: &mut Searcher<'_>, bound: Bound, Ghost(qs): Ghost<Seq<int>>) -> (r: Result<
    u8,
>)
    requires
        old(searcher).wf(),
        old(searcher).looked(qs),
    ensures
        final(searcher).wf(),
        final(searcher).image == old(searcher).image,
        final(searcher).template == old(searcher).template,
        ({
            let p = bound.pred(*old(searcher).image, old(searcher).template@);
            &&& match r {
                Ok(q) => q <= 100 && bisect(bound.edge(), p, 0, 100) == Ok::<int, Error>(q as int),
                Err(e) => bisect(bound.edge(), p, 0, 100) == Err::<int, Error>(e),
            }
            &&& (r is Ok ==> final(searcher).looked(qs + probes(bound.edge(), p, 0, 100)))
        }),
{
    let ghost p = bound.pred(*searcher.image, searcher.template@);
    let ghost image = searcher.image;
    let ghost template = searcher.template;
    let edge: Edge = match bound {
        Bound::Size(_) => Edge::LastTrue,
        Bound::Psnr(_) => Edge::FirstTrue,
    };
    let mut s: Bisection = Bisection::new(edge, 0, 100);
    let ghost mut seen = qs;
    proof {
        assert(qs + s.probes(p) =~= qs + probes(edge, p, 0, 100));
    }
    while s.a <= s.b
        invariant
            searcher.wf(),
            searcher.image == image,
            searcher.template == template,
            image == old(searcher).image,
            template == old(searcher).template,
            p == bound.pred(*image, template@),
            edge == bound.edge(),
            searcher.looked(seen),
            s.wf(),
            s.edge == edge,
            s.b <= 100,
            s.best <= 100,
            s.finds(p) == bisect(edge, p, 0, 100),
            seen + s.probes(p) == qs + probes(edge, p, 0, 100),
        decreases s.left(),
    {
        if let Some(mid) = s.probe() {
            let answer: Result<bool> = bound_at(searcher, bound, mid, Ghost(seen));
            let ghost before = s;
            match answer {
                Err(e) => {
                    return Err(e);
                },
                Ok(holds) => {
                    s.answer(mid, holds);
                    proof {
                        before.lemma_goes_on(mid, holds, s, p);
                        assert(seen.push(mid as int) + s.probes(p) =~= seen + before.probes(p));
                        seen = seen.push(mid as int);
                    }
                },
            }
        }
    }
    proof {
        assert(seen + s.probes(p) =~= seen);
    }
    Ok(s.best)
}

/// Search the qualities `0..=100` for `target`, at the effort and with the knobs of
/// `template`.
///
/// A byte budget picks the largest quality within it, a PSNR floor the smallest quality
/// that clears it; a combined target takes the floor's quality, which is no more than the
/// budget's where both can be met, and wins where they conflict. If no quality meets the
/// target, the closest one is chosen and the outcome says so.
///
/// # Errors
///
/// [`Error::InvalidDimensions`] if `target` has no bound, or the error of decoding a
/// probe.
pub fn search(image: &Image, template: &LossyConfig, target: RateTarget) -> (r: Result<RateSearch>)
    requires
        image.wf(),
    ensures
        match r {
            Ok(found) => searched(*image, template@, target@) == Ok::<Found, Error>(found@),
            Err(e) => searched(*image, template@, target@) == Err::<Found, Error>(e),
        },
{
    if !target.is_set() {
        return Err(Error::InvalidDimensions);
    }
    proof {
        reveal(Searcher::wf);
        reveal(Searcher::looked);
        reveal(Bound::pred);
    }
    let mut searcher: Searcher<'_> = Searcher::new(image, template);
    let ghost s = template@;
    let ghost mut qs = Seq::<int>::empty();
    let q_size: Option<u8> = match target.max_bytes {
        Some(max) => {
            let q: u8 = match search_bound(&mut searcher, Bound::Size(max), Ghost(qs)) {
                Ok(q) => q,
                Err(e) => {
                    return Err(e);
                },
            };
            proof {
                qs = qs + probes(Edge::LastTrue, fits(*image, s, max), 0, 100);
            }
            Some(q)
        },
        None => None,
    };
    let ghost first = qs;
    let q_psnr: Option<u8> = match target.min_psnr_centidb {
        Some(floor) => {
            let q: u8 = match search_bound(&mut searcher, Bound::Psnr(floor), Ghost(qs)) {
                Ok(q) => q,
                Err(e) => {
                    return Err(e);
                },
            };
            proof {
                qs = qs + probes(Edge::FirstTrue, clears(*image, s, floor), 0, 100);
            }
            Some(q)
        },
        None => None,
    };
    let chosen: u8 = match (q_size, q_psnr) {
        (_, Some(b)) => b,
        (Some(a), None) => a,
        (None, None) => 75,
    };
    let ghost looked = looked_at(*image, s, target@, chosen as int);
    proof {
        assert(qs.push(chosen as int) =~= looked);
    }
    match searcher.encode_at(chosen, Ghost(qs)) {
        Ok(_) => {},
        Err(e) => {
            return Err(e);
        },
    }
    let fits_budget: bool = match target.max_bytes {
        Some(max) => {
            let r: Result<bool> = searcher.fits_at(chosen, max, Ghost(looked));
            proof {
                lemma_looked_again(*image, s, looked, chosen as int);
            }
            matches!(r, Ok(true))
        },
        None => true,
    };
    let clears_floor: bool = match target.min_psnr_centidb {
        Some(floor) if fits_budget => {
            let r: Result<bool> = searcher.clears_at(chosen, floor, Ghost(looked));
            proof {
                lemma_looked_again(*image, s, looked, chosen as int);
            }
            matches!(r, Ok(true))
        },
        _ => true,
    };
    let met: bool = fits_budget && clears_floor;
    proof {
        assert(searcher.cache@[chosen as int] is Some) by {
            lemma_looked_again(*image, s, looked, chosen as int);
        }
    }
    let bytes: Vec<u8> = match searcher.cache.swap_remove(chosen as usize) {
        Some(bytes) => bytes,
        None => Vec::new(),
    };
    Ok(RateSearch { bytes, quality: chosen, met, attempts: searcher.attempts })
}

/// Looking at the last quality again changes nothing.
proof fn lemma_looked_again(image: Image, s: Settings, qs: Seq<int>, q: int)
    requires
        qs.len() > 0,
        qs.last() == q,
        0 <= q <= 255,
    ensures
        attempts_of(image, s, qs.push(q)) == attempts_of(image, s, qs),
        tried(attempts_of(image, s, qs), q),
{
    let done = attempts_of(image, s, qs.drop_last());
    let all = attempts_of(image, s, qs);
    if !tried(done, q) {
        assert(all[done.len() as int].quality == q);
    }
    assert(tried(all, q));
    assert(qs.push(q).drop_last() =~= qs);
}

} // verus!
