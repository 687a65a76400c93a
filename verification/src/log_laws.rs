//! The fixed-point logarithm is a logarithm, and PSNR measures the mean error with it.

use vstd::arithmetic::power::{
    lemma_pow0, lemma_pow1, lemma_pow_adds, lemma_pow_distributes, lemma_pow_multiplies,
    lemma_pow_positive, lemma_pow_strictly_increases_converse, pow,
};
use vstd::arithmetic::power2::{lemma2_to64, lemma_pow2, lemma_pow2_pos, lemma_pow2_unfold, pow2};
use vstd::prelude::*;

use crate::rate::{log2_bits, log2_q16, mantissa, picture_error, picture_psnr, psnr_of, whole_log2};

verus! {

proof fn lemma_base_le(a: int, b: int, e: nat)
    requires
        0 <= a <= b,
    ensures
        0 <= pow(a, e) <= pow(b, e),
    decreases e,
{
    reveal(pow);
    if e > 0 {
        lemma_base_le(a, b, (e - 1) as nat);
        let x = pow(a, (e - 1) as nat);
        let y = pow(b, (e - 1) as nat);
        assert(0 <= a * x <= b * y) by (nonlinear_arith)
            requires
                0 <= a <= b,
                0 <= x <= y,
        ;
    }
}

proof fn lemma_mul_le(a: int, b: int, c: int, d: int)
    requires
        0 <= a <= b,
        0 <= c <= d,
    ensures
        0 <= a * c <= b * d,
{
    assert(0 <= a * c <= b * d) by (nonlinear_arith)
        requires
            0 <= a <= b,
            0 <= c <= d,
    ;
}

proof fn lemma_mul_lt(a: int, b: int, c: int)
    requires
        a < b,
        0 < c,
    ensures
        a * c < b * c,
{
    assert(a * c < b * c) by (nonlinear_arith)
        requires
            a < b,
            0 < c,
    ;
}

proof fn lemma_cancel_le(a: int, b: int, c: int)
    requires
        a * c <= b * c,
        0 < c,
    ensures
        a <= b,
{
    assert(a <= b) by (nonlinear_arith)
        requires
            a * c <= b * c,
            0 < c,
    ;
}

proof fn lemma_cancel_lt(a: int, b: int, c: int)
    requires
        a * c < b * c,
        0 < c,
    ensures
        a < b,
{
    assert(a < b) by (nonlinear_arith)
        requires
            a * c < b * c,
            0 < c,
    ;
}

/// `2^31`.
spec fn unit() -> int {
    0x8000_0000
}

/// A growth of one part in `2^31` at most doubles in `2^17` steps.
proof fn lemma_growth(n: nat)
    requires
        n <= 0x20000,
    ensures
        pow(unit() + 1, n) <= 2 * pow(unit(), n),
{
    lemma_growth_step(n);
    let m = unit();
    let a = pow(m + 1, n);
    let b = pow(m, n);
    reveal(pow);
    assert(pow(m, (n + 1) as nat) == m * b);
    lemma_pow_positive(m + 1, n);
    assert(a * m <= 2 * (m * b)) by (nonlinear_arith)
        requires
            a * (m - n) <= m * b,
            0 < a,
            m == 0x8000_0000,
            0 <= n <= 0x20000,
    ;
    assert(a <= 2 * b) by (nonlinear_arith)
        requires
            a * m <= 2 * (m * b),
            m == 0x8000_0000,
    ;
}

proof fn lemma_growth_step(n: nat)
    requires
        n <= 0x20000,
    ensures
        pow(unit() + 1, n) * (unit() - n) <= pow(unit(), n + 1),
    decreases n,
{
    let m = unit();
    reveal(pow);
    if n == 0 {
        lemma_pow0(m + 1);
        lemma_pow1(m);
    } else {
        let p = (n - 1) as nat;
        lemma_growth_step(p);
        let a = pow(m + 1, p);
        let b = pow(m, n);
        lemma_pow_positive(m + 1, p);
        assert(pow(m + 1, n) == (m + 1) * a);
        assert(pow(m, n + 1) == m * b);
        assert(((m + 1) * a) * (m - n) <= m * b) by (nonlinear_arith)
            requires
                a * (m - (n - 1)) <= b,
                0 < a,
                1 <= n,
                m == 0x8000_0000,
                n <= 0x20000,
        ;
    }
}

/// One squaring of a mantissa: `s` is 31, or 32 where it yields a bit.
proof fn lemma_square_step(m: int) -> (r: (int, nat))
    requires
        unit() <= m < 2 * unit(),
    ensures
        unit() <= r.0 < 2 * unit(),
        r.1 == 31 || r.1 == 32,
        ({
            let sq = (m * m) / 0x8000_0000;
            &&& sq >= 0x1_0000_0000 ==> r.1 == 32 && r.0 == sq / 2
            &&& sq < 0x1_0000_0000 ==> r.1 == 31 && r.0 == sq
        }),
        r.0 * pow(2, r.1) <= m * m,
        (m * m) * unit() <= r.0 * (unit() + 1) * pow(2, r.1),
{
    lemma2_to64();
    lemma_pow2(31);
    lemma_pow2(32);
    let mm = m * m;
    assert(unit() * unit() <= mm < 4 * unit() * unit()) by (nonlinear_arith)
        requires
            mm == m * m,
            0x8000_0000 <= m < 0x1_0000_0000,
            unit() == 0x8000_0000,
    ;
    let sq = mm / 0x8000_0000;
    let (r, s): (int, nat) = if sq >= 0x1_0000_0000 {
        (sq / 2, 32)
    } else {
        (sq, 31)
    };
    let t: int = if s == 32 {
        0x1_0000_0000
    } else {
        0x8000_0000
    };
    assert(pow(2, s) == t);
    assert(r * t <= mm < (r + 1) * t);
    assert(unit() <= r < 2 * unit());
    assert(mm * unit() <= r * (unit() + 1) * t) by (nonlinear_arith)
        requires
            mm < (r + 1) * t,
            0 < t,
            unit() <= r,
            unit() == 0x8000_0000,
    ;
    (r, s)
}

/// The bits after the point bound the power of a mantissa.
proof fn lemma_bits(m: int, k: nat)
    requires
        unit() <= m < 2 * unit(),
    ensures
        0 <= log2_bits(m, k),
        ({
            let n = pow2(k);
            let b = log2_bits(m, k);
            &&& pow(2, (b + 31 * n) as nat) <= pow(m, n)
            &&& pow(m, n) * pow(unit(), n) < pow(2, (b + 31 * n + 1) as nat) * pow(unit() + 1, n)
        }),
    decreases k,
{
    let u = unit();
    lemma2_to64();
    if k == 0 {
        lemma_pow1(m);
        lemma_pow1(u);
        lemma_pow1(u + 1);
        lemma_pow2(31);
        lemma_pow2(32);
        assert(m * u < 0x1_0000_0000 * (u + 1)) by (nonlinear_arith)
            requires
                0 <= m < 0x1_0000_0000,
                u == 0x8000_0000,
        ;
    } else {
        let (r, s) = lemma_square_step(m);
        let p = (k - 1) as nat;
        lemma_bits(r, p);
        lemma_pow2_unfold(k);
        lemma_pow2_pos(p);
        let n = pow2(p);
        let b0 = log2_bits(r, p);
        let b = log2_bits(m, k);
        assert(s == 31 ==> b == b0);
        assert(s == 32 ==> b == n + b0);
        assert(b + 31 * (2 * n) == b0 + 31 * n + s * n) by (nonlinear_arith)
            requires
                (s == 31 && b == b0) || (s == 32 && b == n + b0),
        ;
        let ts = pow(2, s);
        lemma_pow_positive(2, s);
        assert(0 <= s * n) by (nonlinear_arith);
        // m^(2n) == (m * m)^n
        lemma_pow_adds(m, n, n);
        lemma_pow_distributes(m, m, n);
        lemma_pow_distributes(r, ts, n);
        lemma_pow_multiplies(2, s, n);
        let rn = pow(r, n);
        let tn = pow(2, (s * n) as nat);
        lemma_pow_positive(2, (s * n) as nat);
        // Lower bound.
        assert(0 <= r * ts) by (nonlinear_arith)
            requires
                0 <= r,
                0 < ts,
        ;
        lemma_base_le(r * ts, m * m, n);
        lemma_pow_positive(2, (b0 + 31 * n) as nat);
        lemma_mul_le(pow(2, (b0 + 31 * n) as nat), rn, tn, tn);
        lemma_pow_adds(2, (b0 + 31 * n) as nat, (s * n) as nat);
        // Upper bound.
        let un = pow(u, n);
        let gn = pow(u + 1, n);
        lemma_pow_positive(u, n);
        lemma_pow_positive(u + 1, n);
        lemma_pow_positive(m, 2 * n);
        assert(0 <= (m * m) * u) by (nonlinear_arith)
            requires
                0 <= m,
                0 <= u,
        ;
        lemma_base_le((m * m) * u, r * (u + 1) * ts, n);
        lemma_pow_distributes(m * m, u, n);
        lemma_pow_distributes(r * (u + 1), ts, n);
        lemma_pow_distributes(r, u + 1, n);
        let mn = pow(m, 2 * n);
        assert(mn * un <= rn * gn * tn);
        lemma_mul_le(mn * un, rn * gn * tn, un, un);
        let c = pow(2, (b0 + 31 * n + 1) as nat);
        assert(rn * un < c * gn);
        lemma_mul_pos(gn, tn);
        lemma_mul_lt(rn * un, c * gn, gn * tn);
        lemma_pow_adds(2, (b0 + 31 * n + 1) as nat, (s * n) as nat);
        lemma_pow_adds(u, n, n);
        lemma_pow_adds(u + 1, n, n);
        assert(rn * gn * tn * un == (rn * un) * (gn * tn)) by (nonlinear_arith);
        assert((c * gn) * (gn * tn) == (c * tn) * (gn * gn)) by (nonlinear_arith);
        assert((mn * un) * un == mn * (un * un)) by (nonlinear_arith);
        assert(2 * n == n + n);
    }
}

/// The whole part of a logarithm.
proof fn lemma_whole(v: int)
    requires
        1 <= v,
    ensures
        0 <= whole_log2(v),
        pow2(whole_log2(v) as nat) <= v < 2 * pow2(whole_log2(v) as nat),
        whole_log2(2 * v) == whole_log2(v) + 1,
    decreases v,
{
    lemma2_to64();
    if v > 1 {
        lemma_whole(v / 2);
        lemma_pow2_unfold(whole_log2(v) as nat);
    }
}

/// The whole part of a logarithm is the exponent of the power of two below.
proof fn lemma_whole_is(v: int, w: nat)
    requires
        1 <= v,
        pow2(w) <= v < 2 * pow2(w),
    ensures
        whole_log2(v) == w,
{
    lemma_whole(v);
    let x = whole_log2(v) as nat;
    lemma_pow2(x);
    lemma_pow2(w);
    lemma_pow2(x + 1);
    lemma_pow2(w + 1);
    lemma_pow2_unfold(x + 1);
    lemma_pow2_unfold(w + 1);
    lemma_pow_strictly_increases_converse(2, x, w + 1);
    lemma_pow_strictly_increases_converse(2, w, x + 1);
}

/// The mantissa of a large number is its leading bits.
proof fn lemma_mantissa_large(v: int)
    requires
        unit() <= v,
    ensures
        unit() <= mantissa(v) < 2 * unit(),
        31 <= whole_log2(v),
        mantissa(v) * pow2((whole_log2(v) - 31) as nat) <= v < (mantissa(v) + 1) * pow2(
            (whole_log2(v) - 31) as nat,
        ),
    decreases v,
{
    lemma2_to64();
    if v < 2 * unit() {
        lemma_whole_is(v, 31);
        assert(pow2((whole_log2(v) - 31) as nat) == 1);
        assert(mantissa(v) == v);
    } else {
        lemma_mantissa_large(v / 2);
        lemma_whole(v / 2);
        let w = whole_log2(v);
        assert(w == whole_log2(v / 2) + 1);
        lemma_pow2_unfold((w - 31) as nat);
        let p = pow2((w - 32) as nat) as int;
        let m = mantissa(v);
        assert(m == mantissa(v / 2));
        assert(m * (2 * p) <= v < (m + 1) * (2 * p)) by (nonlinear_arith)
            requires
                m * p <= v / 2 < (m + 1) * p,
        ;
    }
}

/// The mantissa of a small number is the number, scaled.
proof fn lemma_mantissa_small(v: int)
    requires
        1 <= v < 2 * unit(),
    ensures
        unit() <= mantissa(v) < 2 * unit(),
        mantissa(v) * pow2(whole_log2(v) as nat) == v * unit(),
    decreases 2 * unit() - v,
{
    lemma2_to64();
    lemma_whole(v);
    if v >= unit() {
        lemma_whole_is(v, 31);
    } else {
        lemma_mantissa_small(2 * v);
        let w = whole_log2(v);
        lemma_pow2_unfold((w + 1) as nat);
        let p = pow2(w as nat) as int;
        let m = mantissa(v);
        assert(m == mantissa(2 * v));
        assert(m * p == v * unit()) by (nonlinear_arith)
            requires
                m * (2 * p) == (2 * v) * unit(),
        ;
    }
}

/// A number lies between its mantissa and the next one.
proof fn lemma_mantissa(v: int)
    requires
        1 <= v,
    ensures
        unit() <= mantissa(v) < 2 * unit(),
        0 <= whole_log2(v),
        mantissa(v) * pow2(whole_log2(v) as nat) <= v * unit(),
        (v * unit()) * unit() <= mantissa(v) * (unit() + 1) * pow2(whole_log2(v) as nat),
{
    let u = unit();
    lemma_whole(v);
    let w = whole_log2(v) as nat;
    lemma_pow2_pos(w);
    let m = mantissa(v);
    let p = pow2(w) as int;
    if v < 2 * u {
        lemma_mantissa_small(v);
        assert((m * p) * u <= m * (u + 1) * p) by (nonlinear_arith)
            requires
                0 <= m,
                0 < p,
                0 <= u,
        ;
    } else {
        lemma_mantissa_large(v);
        lemma2_to64();
        let q = pow2((w - 31) as nat) as int;
        vstd::arithmetic::power2::lemma_pow2_adds((w - 31) as nat, 31);
        assert(p == q * u);
        assert(m * (q * u) <= v * u) by (nonlinear_arith)
            requires
                m * q <= v,
                0 < u,
        ;
        assert((v * u) * u <= m * (u + 1) * (q * u)) by (nonlinear_arith)
            requires
                v < (m + 1) * q,
                u <= m,
                0 < u,
                0 <= v,
                0 < q || q <= 0,
        ;
    }
}

/// The fixed-point logarithm `l` of `v` is `65536 * log2(v)`, less than two short:
/// `2^l <= v^65536 < 2^(l + 2)`.
pub proof fn logarithm_is_a_logarithm(v: int)
    requires
        1 <= v,
    ensures
        0 <= log2_q16(v),
        pow(2, log2_q16(v) as nat) <= pow(v, 65536),
        pow(v, 65536) < pow(2, (log2_q16(v) + 2) as nat),
{
    let u = unit();
    let n: nat = 65536;
    lemma2_to64();
    lemma_mantissa(v);
    let m = mantissa(v);
    let w = whole_log2(v) as nat;
    lemma_bits(m, 16);
    let b = log2_bits(m, 16);
    assert(pow2(16) == n);
    let l = log2_q16(v);
    assert(l == 65536 * w + b);
    lemma_pow2(w);
    lemma_pow2(31);
    let p = pow(2, w);
    lemma_pow_positive(2, w);
    lemma_pow_multiplies(2, w, n);
    lemma_pow_multiplies(2, 31, n);
    let pn = pow(2, w * n);
    let un = pow(u, n);
    assert(un == pow(2, 31 * n));
    lemma_pow_positive(2, w * n);
    lemma_pow_positive(u, n);
    lemma_pow_distributes(m, p, n);
    lemma_pow_distributes(v, u, n);
    let mn = pow(m, n);
    let vn = pow(v, n);
    assert(w * n == 65536 * w);
    // Lower bound.
    assert(0 <= m * p) by (nonlinear_arith)
        requires
            0 <= m,
            0 < p,
    ;
    lemma_base_le(m * p, v * u, n);
    lemma_pow_positive(2, (b + 31 * n) as nat);
    lemma_mul_le(pow(2, (b + 31 * n) as nat), mn, pn, pn);
    lemma_pow_adds(2, (b + 31 * n) as nat, w * n);
    lemma_pow_adds(2, l as nat, 31 * n);
    assert((b + 31 * n) as nat + w * n == l as nat + 31 * n);
    lemma_cancel_le(pow(2, l as nat), vn, un);
    // Upper bound.
    let gn = pow(u + 1, n);
    lemma_pow_positive(u + 1, n);
    lemma_pow_positive(v, n);
    assert(0 <= (v * u) * u) by (nonlinear_arith)
        requires
            0 <= v,
            0 <= u,
    ;
    lemma_base_le((v * u) * u, m * (u + 1) * p, n);
    lemma_pow_distributes(v * u, u, n);
    lemma_pow_distributes(m * (u + 1), p, n);
    lemma_pow_distributes(m, u + 1, n);
    assert(vn * un * un <= mn * gn * pn);
    lemma_mul_le(vn * un * un, mn * gn * pn, un, un);
    let c = pow(2, (b + 31 * n + 1) as nat);
    lemma_mul_pos(gn, pn);
    lemma_mul_lt(mn * un, c * gn, gn * pn);
    lemma_growth(2 * n);
    lemma_pow_adds(u + 1, n, n);
    lemma_pow_adds(u, n, n);
    assert(2 * n == n + n);
    assert(gn * gn <= 2 * (un * un));
    lemma_pow_positive(2, (b + 31 * n + 1) as nat);
    lemma_mul_pos(c, pn);
    lemma_mul_le(gn * gn, 2 * (un * un), c * pn, c * pn);
    assert(mn * gn * pn * un == (mn * un) * (gn * pn)) by (nonlinear_arith);
    assert((c * gn) * (gn * pn) == (gn * gn) * (c * pn)) by (nonlinear_arith);
    lemma_pow_adds(2, (b + 31 * n + 1) as nat, w * n);
    lemma_pow1(2);
    lemma_pow_adds(2, 1, (b + 31 * n + 1 + w * n) as nat);
    lemma_pow_adds(2, (l + 2) as nat, 31 * n);
    let d = pow(2, (l + 2) as nat);
    assert((b + 31 * n + 1) as nat + w * n == (b + 31 * n + 1 + w * n) as nat);
    assert(1 + (b + 31 * n + 1 + w * n) as nat == (l + 2) as nat + 31 * n);
    assert(2 * (c * pn) == d * un);
    assert((2 * (un * un)) * (c * pn) == (un * un) * (2 * (c * pn))) by (nonlinear_arith);
    assert(vn * un * un * un == vn * (un * un * un)) by (nonlinear_arith);
    assert((un * un) * (d * un) == d * (un * un * un)) by (nonlinear_arith);
    lemma_mul_pos(un, un);
    lemma_mul_pos(un * un, un);
    lemma_cancel_lt(vn, d, un * un * un);
}

proof fn lemma_mul_pos(a: int, b: int)
    requires
        0 < a,
        0 < b,
    ensures
        0 < a * b,
{
    assert(0 < a * b) by (nonlinear_arith)
        requires
            0 < a,
            0 < b,
    ;
}

/// The logarithm of a product is the sum of the logarithms, up to rounding.
pub proof fn logarithm_turns_products_into_sums(a: int, b: int, c: int, d: int)
    requires
        1 <= a,
        1 <= b,
        1 <= c,
        1 <= d,
        a * b == c * d,
    ensures
        -4 < log2_q16(a) + log2_q16(b) - log2_q16(c) - log2_q16(d) < 4,
{
    lemma_sum_below(a, b, c, d);
    lemma_sum_below(c, d, a, b);
}

proof fn lemma_sum_below(a: int, b: int, c: int, d: int)
    requires
        1 <= a,
        1 <= b,
        1 <= c,
        1 <= d,
        a * b == c * d,
    ensures
        log2_q16(a) + log2_q16(b) < log2_q16(c) + log2_q16(d) + 4,
{
    let n: nat = 65536;
    logarithm_is_a_logarithm(a);
    logarithm_is_a_logarithm(b);
    logarithm_is_a_logarithm(c);
    logarithm_is_a_logarithm(d);
    let la = log2_q16(a) as nat;
    let lb = log2_q16(b) as nat;
    let lc = log2_q16(c) as nat;
    let ld = log2_q16(d) as nat;
    lemma_pow_distributes(a, b, n);
    lemma_pow_distributes(c, d, n);
    lemma_pow_adds(2, la, lb);
    lemma_pow_adds(2, lc + 2, ld + 2);
    lemma_pow_positive(2, la);
    lemma_pow_positive(2, lb);
    lemma_pow_positive(2, ld + 2);
    lemma_pow_positive(c, n);
    lemma_pow_positive(d, n);
    lemma_mul_le(pow(2, la), pow(a, n), pow(2, lb), pow(b, n));
    lemma_mul_le(pow(c, n), pow(c, n), pow(d, n), pow(2, ld + 2));
    lemma_mul_lt(pow(c, n), pow(2, lc + 2), pow(2, ld + 2));
    lemma_pow_strictly_increases_converse(2, la + lb, (lc + 2) + (ld + 2));
}

/// The ratio of PSNR, in whole units.
proof fn lemma_psnr_gap(r: int, s: int, k: int)
    requires
        -4 < r - s - k < 4,
        0 <= r,
        0 <= s,
        0 <= k,
    ensures
        (s * 1000) / 217706 + (k * 1000) / 217706 - 1 <= (r * 1000) / 217706 <= (s * 1000) / 217706 + (
        k * 1000) / 217706 + 2,
{
}

/// PSNR measures the mean error: two pictures of any sizes with the same mean error have
/// the same PSNR, to a hundredth of a decibel.
pub proof fn psnr_depends_on_the_mean_error(e: int, n: int, f: int, m: int)
    requires
        1 <= e,
        1 <= f,
        1 <= n,
        1 <= m,
        e * m == f * n,
        65025 * n <= u64::MAX,
        65025 * m <= u64::MAX,
    ensures
        -1 <= psnr_of(e, n) - psnr_of(f, m) <= 1,
{
    assert((65025 * n) * f == (65025 * m) * e) by (nonlinear_arith)
        requires
            e * m == f * n,
    ;
    logarithm_turns_products_into_sums(65025 * n, f, 65025 * m, e);
    logarithm_is_a_logarithm(65025 * n);
    logarithm_is_a_logarithm(65025 * m);
    logarithm_is_a_logarithm(e);
    logarithm_is_a_logarithm(f);
    crate::rate_laws::lemma_log2_range(65025 * n);
    crate::rate_laws::lemma_log2_range(65025 * m);
}

/// A tenfold error is ten decibels, to two hundredths.
pub proof fn psnr_falls_by_ten_decibels_per_decade(e: int, n: int)
    requires
        1 <= e,
        1 <= n,
        10 * e <= 65025 * n <= u64::MAX,
    ensures
        998 <= psnr_of(e, n) - psnr_of(10 * e, n) <= 1002,
{
    logarithm_turns_products_into_sums(10 * e, 1, 10, e);
    lemma_log_ten();
    lemma_log_one();
    logarithm_is_a_logarithm(65025 * n);
    logarithm_is_a_logarithm(10 * e);
    logarithm_is_a_logarithm(e);
    crate::rate_laws::lemma_log2_range(65025 * n);
    lemma_log_rises(10 * e, 65025 * n);
}

proof fn lemma_log_rises(a: int, b: int)
    requires
        1 <= a <= b,
    ensures
        log2_q16(a) <= log2_q16(b) + 1,
{
    logarithm_is_a_logarithm(a);
    logarithm_is_a_logarithm(b);
    lemma_base_le(a, b, 65536);
    lemma_pow_strictly_increases_converse(
        2,
        log2_q16(a) as nat,
        (log2_q16(b) + 2) as nat,
    );
}

proof fn lemma_log_one()
    ensures
        log2_q16(1) == 0,
{
    lemma2_to64();
    lemma_mantissa_small(1);
    assert(whole_log2(1) == 0);
    let m = mantissa(1);
    assert(m * pow2(0) == 1 * unit());
    assert(pow2(0) == 1);
    assert(m == 0x8000_0000) by (nonlinear_arith)
        requires
            m * pow2(0) == 1 * unit(),
            pow2(0) == 1,
            unit() == 0x8000_0000,
    ;
    lemma_no_bits(16);
    assert(log2_bits(m, 16) == 0);
}

/// A power of two has no bits after the point.
proof fn lemma_no_bits(k: nat)
    ensures
        log2_bits(0x8000_0000, k) == 0,
    decreases k,
{
    assert((0x8000_0000int * 0x8000_0000int) / 0x8000_0000 == 0x8000_0000);
    if k > 0 {
        lemma_no_bits((k - 1) as nat);
    }
}

proof fn lemma_log_ten()
    ensures
        log2_q16(10) == 217705,
{
    lemma2_to64();
    lemma_mantissa_small(10);
    lemma_whole_is(10, 3);
    let m = mantissa(10);
    assert(m * 8 == 10 * 0x8000_0000);
    assert(log2_bits(3951150534, 0) == 0);
    assert(log2_bits(4119473550, 1) == 1) by {
        assert((4119473550int * 4119473550int) / 0x8000_0000 == 7902301069);
    }
    assert(log2_bits(2974306993, 2) == 1) by {
        assert((2974306993int * 2974306993int) / 0x8000_0000 == 4119473550);
    }
    assert(log2_bits(2527306003, 3) == 1) by {
        assert((2527306003int * 2527306003int) / 0x8000_0000 == 2974306993);
    }
    assert(log2_bits(3294646663, 4) == 9) by {
        assert((3294646663int * 3294646663int) / 0x8000_0000 == 5054612007);
    }
    assert(log2_bits(2659924780, 5) == 9) by {
        assert((2659924780int * 2659924780int) / 0x8000_0000 == 3294646663);
    }
    assert(log2_bits(3379983719, 6) == 41) by {
        assert((3379983719int * 3379983719int) / 0x8000_0000 == 5319849560);
    }
    assert(log2_bits(3810107549, 7) == 105) by {
        assert((3810107549int * 3810107549int) / 0x8000_0000 == 6759967438);
    }
    assert(log2_bits(2860444661, 8) == 105) by {
        assert((2860444661int * 2860444661int) / 0x8000_0000 == 3810107549);
    }
    assert(log2_bits(2478458823, 9) == 105) by {
        assert((2478458823int * 2478458823int) / 0x8000_0000 == 2860444661);
    }
    assert(log2_bits(3262652233, 10) == 617) by {
        assert((3262652233int * 3262652233int) / 0x8000_0000 == 4956917647);
    }
    assert(log2_bits(2646977960, 11) == 617) by {
        assert((2646977960int * 2646977960int) / 0x8000_0000 == 3262652233);
    }
    assert(log2_bits(2384185791, 12) == 617) by {
        assert((2384185791int * 2384185791int) / 0x8000_0000 == 2646977960);
    }
    assert(log2_bits(3200000000, 13) == 4713) by {
        assert((3200000000int * 3200000000int) / 0x8000_0000 == 4768371582);
    }
    assert(log2_bits(2621440000, 14) == 4713) by {
        assert((2621440000int * 2621440000int) / 0x8000_0000 == 3200000000);
    }
    assert(log2_bits(3355443200, 15) == 21097) by {
        assert((3355443200int * 3355443200int) / 0x8000_0000 == 5242880000);
    }
    assert(log2_bits(2684354560, 16) == 21097) by {
        assert((2684354560int * 2684354560int) / 0x8000_0000 == 3355443200);
    }
}

/// An error as large as the largest possible one is zero decibels.
pub proof fn psnr_of_the_largest_error_is_zero(n: int)
    requires
        1 <= n,
        65025 * n <= u64::MAX,
    ensures
        psnr_of(65025 * n, n) == 0,
{
}

/// Pictures in which every colour of every pixel is off by `d` have the PSNR of a single
/// sample that is off by `d`, whatever their size.
pub proof fn uniform_errors_have_one_psnr(a: Seq<u32>, b: Seq<u32>, d: int)
    requires
        1 <= d <= 255,
        1 <= a.len() == b.len() <= 0x100_0000_0000,
        forall|i: int|
            0 <= i < a.len() ==> #[trigger] crate::rate::pixel_error(a[i], b[i]) == 3 * d * d,
    ensures
        -1 <= picture_psnr(a, b) - psnr_of(d * d, 1) <= 1,
{
    let n = a.len() as int;
    lemma_uniform(a, b, d, n);
    let e = picture_error(a, b, n);
    assert(e == 3 * n * (d * d)) by (nonlinear_arith)
        requires
            e == 3 * d * d * n,
    ;
    assert(1 <= d * d) by (nonlinear_arith)
        requires
            1 <= d,
    ;
    assert(1 <= 3 * n * (d * d)) by (nonlinear_arith)
        requires
            1 <= n,
            1 <= d * d,
    ;
    assert(e * 1 == (d * d) * (3 * n)) by (nonlinear_arith)
        requires
            e == 3 * n * (d * d),
    ;
    psnr_depends_on_the_mean_error(e, 3 * n, d * d, 1);
}

proof fn lemma_uniform(a: Seq<u32>, b: Seq<u32>, d: int, n: int)
    requires
        0 <= n <= a.len() == b.len(),
        forall|i: int|
            0 <= i < a.len() ==> #[trigger] crate::rate::pixel_error(a[i], b[i]) == 3 * d * d,
    ensures
        picture_error(a, b, n) == 3 * d * d * n,
    decreases n,
{
    if n > 0 {
        lemma_uniform(a, b, d, n - 1);
        assert(crate::rate::pixel_error(a[n - 1], b[n - 1]) == 3 * d * d);
        assert(3 * d * d * (n - 1) + 3 * d * d == 3 * d * d * n) by (nonlinear_arith);
    } else {
        assert(3 * d * d * 0 == 0);
    }
}

/// The error of a picture adds up over its pixels: the squares of the differences of the
/// three low bytes, whatever is in the high one.
pub proof fn errors_add_up(a: Seq<u32>, b: Seq<u32>, n: int)
    requires
        0 <= n < a.len(),
        n < b.len(),
    ensures
        picture_error(a, b, 0) == 0,
        ({
            let d = a[n] as int % 256 - b[n] as int % 256;
            let e = (a[n] as int / 256) % 256 - (b[n] as int / 256) % 256;
            let f = (a[n] as int / 65536) % 256 - (b[n] as int / 65536) % 256;
            picture_error(a, b, n + 1) == picture_error(a, b, n) + d * d + e * e + f * f
        }),
{
}

/// The PSNR of pictures is that of their error over three samples per pixel that both have.
pub proof fn psnr_counts_three_samples_per_pixel(a: Seq<u32>, b: Seq<u32>)
    ensures
        a.len() <= b.len() ==> picture_psnr(a, b) == psnr_of(
            picture_error(a, b, a.len() as int),
            3 * a.len() as int,
        ),
        b.len() <= a.len() ==> picture_psnr(a, b) == psnr_of(
            picture_error(a, b, b.len() as int),
            3 * b.len() as int,
        ),
{
}

} // verus!
