//! The mathematical model of the VP8 boolean entropy coder.
//!
//! A coded partition is a sequence of *symbols*: a bit together with the
//! probability it was coded at. [`enc_run`] maps a symbol sequence to the interval
//! an ideal arithmetic coder narrows down to, [`coded_bytes`] to the bytes of that
//! interval's lower end, and [`dec_step`] reads one bit back. The central law is
//! [`coded_bytes_decode`]: reading the bytes of a symbol sequence with the same
//! probabilities returns exactly its bits.

use vstd::arithmetic::power2::{pow2, lemma_pow2_adds, lemma_pow2_pos, lemma_pow2_unfold};
use vstd::prelude::*;

verus! {

/// One coded boolean: its probability of being zero (in 256ths) and its value.
pub type Sym = (u8, bool);

/// The part of an interval of size `range` that stands for a zero bit.
pub open spec fn split_of(range: int, prob: u8) -> int {
    1 + ((range - 1) * prob) / 256
}

/// The state of an ideal encoder: the interval `[low, low + range)` in units of
/// `2^-(8 + shift)`.
pub struct EncState {
    /// Lower end of the interval.
    pub low: int,
    /// Size of the interval.
    pub range: int,
    /// How many times the interval has been doubled.
    pub shift: nat,
}

/// The interval an encoder starts from.
pub open spec fn enc_init() -> EncState {
    EncState { low: 0, range: 255, shift: 0 }
}

/// Rescale the interval by two.
pub open spec fn enc_double(s: EncState) -> EncState {
    EncState { low: 2 * s.low, range: 2 * s.range, shift: s.shift + 1 }
}

/// How far a range is from being normalized.
pub open spec fn norm_gap(range: int) -> int {
    if range < 128 {
        128 - range
    } else {
        0
    }
}

/// Double the interval until its size is at least 128.
pub open spec fn enc_norm(s: EncState) -> EncState
    decreases norm_gap(s.range),
{
    if s.range <= 0 || s.range >= 128 {
        s
    } else {
        enc_norm(enc_double(s))
    }
}

/// The part of the interval that `sym` selects, before rescaling.
pub open spec fn enc_narrow(s: EncState, sym: Sym) -> EncState {
    let split = split_of(s.range, sym.0);
    if sym.1 {
        EncState { low: s.low + split, range: s.range - split, shift: s.shift }
    } else {
        EncState { low: s.low, range: split, shift: s.shift }
    }
}

/// Code one symbol.
pub open spec fn enc_step(s: EncState, sym: Sym) -> EncState {
    enc_norm(enc_narrow(s, sym))
}

/// Code a whole symbol sequence from the start.
pub open spec fn enc_run(h: Seq<Sym>) -> EncState
    decreases h.len(),
{
    if h.len() == 0 {
        enc_init()
    } else {
        enc_step(enc_run(h.drop_last()), h.last())
    }
}

/// The `len` low-order base-256 digits of `v`, most significant first.
pub open spec fn be_bytes(v: int, len: nat) -> Seq<u8>
    decreases len,
{
    if len == 0 {
        Seq::empty()
    } else {
        be_bytes(v / 256, (len - 1) as nat).push((v % 256) as u8)
    }
}

/// The number whose base-256 digits, most significant first, are `s`.
pub open spec fn be_val(s: Seq<u8>) -> int
    decreases s.len(),
{
    if s.len() == 0 {
        0
    } else {
        be_val(s.drop_last()) * 256 + s.last()
    }
}

/// Number of bytes a finished partition occupies: the interval's lower end, padded to
/// whole bytes with at least one bit.
pub open spec fn coded_len(s: EncState) -> nat {
    s.shift / 8 + 2
}

/// The bytes of a finished partition that codes `h`.
pub open spec fn coded_bytes(h: Seq<Sym>) -> Seq<u8> {
    let s = enc_run(h);
    let len = coded_len(s);
    be_bytes(s.low * pow2((8 * len - 8 - s.shift) as nat) as int, len)
}

/// The state of a decoder: the bytes, the next bit position, and the window
/// `value` into the current interval of size `range`.
pub struct DecState {
    /// The partition's bytes; zeros follow them.
    pub data: Seq<u8>,
    /// Bit position of the next bit to shift in, at most `8 * data.len()`.
    pub pos: int,
    /// Offset of the coded number within the interval, capped at `range`.
    pub value: int,
    /// Size of the interval.
    pub range: int,
}

/// Bit `pos` of `data`, most significant first, zero past the end.
pub open spec fn bit_at(data: Seq<u8>, pos: int) -> int {
    if 0 <= pos < 8 * data.len() {
        (data[pos / 8] as int / pow2((7 - pos % 8) as nat) as int) % 2
    } else {
        0
    }
}

/// The decoder at the start of `data`.
pub open spec fn dec_init(data: Seq<u8>) -> DecState {
    if data.len() == 0 {
        DecState { data, pos: 0, value: 0, range: 255 }
    } else {
        DecState { data, pos: 8, value: data[0] as int, range: 255 }
    }
}

/// Shift one more bit into the window.
pub open spec fn dec_double(d: DecState) -> DecState {
    let v = 2 * d.value + bit_at(d.data, d.pos);
    DecState {
        data: d.data,
        pos: if d.pos < 8 * d.data.len() {
            d.pos + 1
        } else {
            d.pos
        },
        value: if v < 2 * d.range {
            v
        } else {
            2 * d.range
        },
        range: 2 * d.range,
    }
}

/// Shift bits in until the range is at least 128.
pub open spec fn dec_norm(d: DecState) -> DecState
    decreases norm_gap(d.range),
{
    if d.range <= 0 || d.range >= 128 {
        d
    } else {
        dec_norm(dec_double(d))
    }
}

/// The part of the interval that bit `bit` selects, before rescaling.
pub open spec fn dec_narrow(d: DecState, prob: u8, bit: bool) -> DecState {
    let split = split_of(d.range, prob);
    if bit {
        DecState { data: d.data, pos: d.pos, value: d.value - split, range: d.range - split }
    } else {
        DecState { data: d.data, pos: d.pos, value: d.value, range: split }
    }
}

/// Read one boolean coded at probability `prob`.
pub open spec fn dec_step(d: DecState, prob: u8) -> (bool, DecState) {
    let bit = d.value >= split_of(d.range, prob);
    (bit, dec_norm(dec_narrow(d, prob, bit)))
}

/// Whether reading with the probabilities of `s` returns the bits of `s`.
pub open spec fn decodes(d: DecState, s: Seq<Sym>) -> bool
    decreases s.len(),
{
    s.len() == 0 || {
        let (bit, next) = dec_step(d, s[0].0);
        bit == s[0].1 && decodes(next, s.drop_first())
    }
}

/// The decoder after reading one boolean per symbol of `s`.
pub open spec fn dec_after(d: DecState, s: Seq<Sym>) -> DecState
    decreases s.len(),
{
    if s.len() == 0 {
        d
    } else {
        dec_after(dec_step(d, s[0].0).1, s.drop_first())
    }
}

/// Reading a concatenation is reading its parts one after the other.
pub proof fn lemma_decodes_concat(d: DecState, a: Seq<Sym>, b: Seq<Sym>)
    ensures
        decodes(d, a + b) <==> decodes(d, a) && decodes(dec_after(d, a), b),
        dec_after(d, a + b) == dec_after(dec_after(d, a), b),
    decreases a.len(),
{
    if a.len() == 0 {
        assert(a + b =~= b);
    } else {
        assert((a + b)[0] == a[0]);
        assert((a + b).drop_first() =~= a.drop_first() + b);
        lemma_decodes_concat(dec_step(d, a[0].0).1, a.drop_first(), b);
    }
}

/// A split leaves both bits a non-empty part of the interval.
pub proof fn lemma_split_range(range: int, prob: u8)
    requires
        128 <= range <= 255,
    ensures
        1 <= split_of(range, prob) < range,
{
    let a = (range - 1) * prob;
    assert(0 <= a <= (range - 1) * 255) by (nonlinear_arith)
        requires
            a == (range - 1) * prob,
            128 <= range,
            prob <= 255,
    ;
    assert(a / 256 <= range - 2) by {
        assert(a < (range - 1) * 256);
    }
}

proof fn lemma_enc_norm(s: EncState)
    requires
        1 <= s.range <= 255,
        0 <= s.low,
        s.low + s.range <= pow2(8 + s.shift),
    ensures
        128 <= enc_norm(s).range <= 255,
        0 <= enc_norm(s).low,
        enc_norm(s).low + enc_norm(s).range <= pow2(8 + enc_norm(s).shift),
        enc_norm(s).shift >= s.shift,
    decreases norm_gap(s.range),
{
    if s.range < 128 {
        lemma_pow2_unfold((8 + s.shift + 1) as nat);
        lemma_enc_norm(enc_double(s));
    }
}

/// The interval stays inside the unit interval and normalized.
pub proof fn lemma_enc_run(h: Seq<Sym>)
    ensures
        128 <= enc_run(h).range <= 255,
        0 <= enc_run(h).low,
        enc_run(h).low + enc_run(h).range <= pow2(8 + enc_run(h).shift),
    decreases h.len(),
{
    if h.len() == 0 {
        vstd::arithmetic::power2::lemma2_to64();
    } else {
        lemma_enc_run(h.drop_last());
        lemma_enc_step(enc_run(h.drop_last()), h.last());
    }
}

/// One coding step keeps the interval inside the unit interval and normalized.
pub proof fn lemma_enc_step(s: EncState, sym: Sym)
    requires
        128 <= s.range <= 255,
        0 <= s.low,
        s.low + s.range <= pow2(8 + s.shift),
    ensures
        128 <= enc_step(s, sym).range <= 255,
        0 <= enc_step(s, sym).low,
        enc_step(s, sym).low + enc_step(s, sym).range <= pow2(8 + enc_step(s, sym).shift),
        enc_step(s, sym).shift >= s.shift,
        1 <= enc_narrow(s, sym).range <= 255,
{
    lemma_split_range(s.range, sym.0);
    lemma_enc_norm(enc_narrow(s, sym));
}

/// Whether the number `f.low`, in units of `2^-(8 + f.shift)`, lies in the interval.
pub open spec fn holds_target(s: EncState, f: EncState) -> bool {
    &&& s.shift <= f.shift
    &&& s.low * pow2((f.shift - s.shift) as nat) <= f.low
    &&& f.low < (s.low + s.range) * pow2((f.shift - s.shift) as nat)
}

proof fn lemma_target_before_norm(s: EncState, f: EncState)
    requires
        holds_target(enc_norm(s), f),
        1 <= s.range <= 255,
    ensures
        holds_target(s, f),
    decreases norm_gap(s.range),
{
    if s.range < 128 {
        lemma_target_before_norm(enc_double(s), f);
        lemma_pow2_unfold((f.shift - s.shift) as nat);
        let p = pow2((f.shift - s.shift - 1) as nat) as int;
        assert(s.low * (2 * p) == (2 * s.low) * p) by (nonlinear_arith);
        assert((s.low + s.range) * (2 * p) == (2 * s.low + 2 * s.range) * p) by (nonlinear_arith);
    }
}

proof fn lemma_target_before_step(s: EncState, sym: Sym, f: EncState)
    requires
        holds_target(enc_step(s, sym), f),
        128 <= s.range <= 255,
    ensures
        holds_target(enc_narrow(s, sym), f),
        holds_target(s, f),
{
    lemma_split_range(s.range, sym.0);
    let m = enc_narrow(s, sym);
    lemma_target_before_norm(m, f);
    let p = pow2((f.shift - s.shift) as nat) as int;
    lemma_pow2_pos((f.shift - s.shift) as nat);
    assert(s.low * p <= m.low * p) by (nonlinear_arith)
        requires
            s.low <= m.low,
            p > 0,
    ;
    assert((m.low + m.range) * p <= (s.low + s.range) * p) by (nonlinear_arith)
        requires
            m.low + m.range <= s.low + s.range,
            p > 0,
    ;
}

/// The final interval's lower end lies in every interval on the way.
proof fn lemma_target_in_prefix(h: Seq<Sym>, i: int)
    requires
        0 <= i <= h.len(),
    ensures
        holds_target(enc_run(h.take(i)), enc_run(h)),
    decreases h.len() - i,
{
    if i == h.len() {
        assert(h.take(i) =~= h);
        lemma_enc_run(h);
        vstd::arithmetic::power2::lemma2_to64();
        let f = enc_run(h);
        let one = pow2((f.shift - f.shift) as nat) as int;
        assert(one == 1);
        assert(f.low * one == f.low && (f.low + f.range) * one == f.low + f.range) by (nonlinear_arith)
            requires
                one == 1,
        ;
    } else {
        lemma_target_in_prefix(h, i + 1);
        assert(h.take(i + 1).drop_last() =~= h.take(i));
        assert(h.take(i + 1).last() == h[i]);
        lemma_enc_run(h.take(i));
        lemma_target_before_step(enc_run(h.take(i)), h[i], enc_run(h));
    }
}

/// Digit `i` of a number written in base 256.
proof fn lemma_be_bytes_bit(v: int, len: nat, pos: int)
    requires
        0 <= v,
        0 <= pos < 8 * len,
    ensures
        be_bytes(v, len).len() == len,
        bit_at(be_bytes(v, len), pos) == (v / pow2((8 * len - 1 - pos) as nat) as int) % 2,
    decreases len,
{
    lemma_be_bytes_len(v, len);
    lemma_be_bytes_len(v / 256, (len - 1) as nat);
    let b = be_bytes(v, len);
    let hi = be_bytes(v / 256, (len - 1) as nat);
    if pos < 8 * (len - 1) {
        lemma_be_bytes_bit(v / 256, (len - 1) as nat, pos);
        assert(b[pos / 8] == hi[pos / 8]);
        let e = (8 * len - 9 - pos) as nat;
        lemma_pow2_adds(8, e);
        vstd::arithmetic::power2::lemma2_to64();
        lemma_pow2_pos(e);
        assert((v / 256) / pow2(e) as int == v / (256 * pow2(e) as int)) by {
            vstd::arithmetic::div_mod::lemma_div_denominator(v, 256, pow2(e) as int);
        }
    } else {
        let k = pos - 8 * (len - 1);
        assert(pos / 8 == len - 1 && pos % 8 == k);
        assert(b[len - 1] == (v % 256) as u8);
        let e = (7 - k) as nat;
        vstd::arithmetic::power2::lemma2_to64();
        lemma_pow2_pos(e);
        assert((8 * len - 1 - pos) as nat == e);
        lemma_pow2_adds(e, (k + 1) as nat);
        // (v % 256) / 2^e and v / 2^e differ by a multiple of 2^(k+1).
        let p = pow2(e) as int;
        let q = v / 256;
        let m = pow2(k as nat) as int;
        lemma_pow2_unfold((k + 1) as nat);
        assert(256 == p * (2 * m));
        assert(v == 256 * q + v % 256);
        assert(v == p * (2 * m * q) + v % 256) by (nonlinear_arith)
            requires
                v == 256 * q + v % 256,
                256 == p * (2 * m),
        ;
        vstd::arithmetic::div_mod::lemma_hoist_over_denominator(v % 256, 2 * m * q, p as nat);
        assert((v % 256) / p + 2 * m * q == v / p) by {
            assert((v % 256 + (2 * m * q) * p) / p == v / p) by {
                assert((2 * m * q) * p == p * (2 * m * q)) by (nonlinear_arith);
            }
        }
        assert(2 * m * q == 2 * (m * q)) by (nonlinear_arith);
    }
}

proof fn lemma_be_bytes_len(v: int, len: nat)
    ensures
        be_bytes(v, len).len() == len,
    decreases len,
{
    if len > 0 {
        lemma_be_bytes_len(v / 256, (len - 1) as nat);
    }
}

/// Writing a number's digits and reading them back.
pub proof fn lemma_be_val_digits(s: Seq<u8>)
    ensures
        be_val(s) >= 0,
        be_bytes(be_val(s), s.len()) == s,
    decreases s.len(),
{
    if s.len() > 0 {
        lemma_be_val_digits(s.drop_last());
        let v = be_val(s);
        assert(v / 256 == be_val(s.drop_last()) && v % 256 == s.last());
        assert(be_bytes(v, s.len()) =~= s);
    } else {
        assert(be_bytes(be_val(s), s.len()) =~= s);
    }
}

/// The finished partition is long enough for every coded bit.
pub proof fn lemma_coded_len(h: Seq<Sym>)
    ensures
        8 * coded_len(enc_run(h)) >= 8 + enc_run(h).shift,
        coded_bytes(h).len() == coded_len(enc_run(h)),
{
    let s = enc_run(h);
    lemma_be_bytes_len(s.low * pow2((8 * coded_len(s) - 8 - s.shift) as nat) as int, coded_len(s));
}

/// Bit `8 + k` of a finished partition is the corresponding bit of the interval's
/// lower end.
proof fn lemma_coded_bit(h: Seq<Sym>, pos: int)
    requires
        0 <= pos < 8 + enc_run(h).shift,
    ensures
        bit_at(coded_bytes(h), pos) == (enc_run(h).low / pow2(
            (7 + enc_run(h).shift - pos) as nat,
        ) as int) % 2,
{
    let s = enc_run(h);
    lemma_enc_run(h);
    lemma_coded_len(h);
    let len = coded_len(s);
    let pad = (8 * len - 8 - s.shift) as nat;
    let v = s.low * pow2(pad) as int;
    lemma_pow2_pos(pad);
    assert(v >= 0) by (nonlinear_arith)
        requires
            v == s.low * pow2(pad) as int,
            s.low >= 0,
            pow2(pad) > 0,
    ;
    lemma_be_bytes_bit(v, len, pos);
    let e = (7 + s.shift - pos) as nat;
    assert((8 * len - 1 - pos) as nat == pad + e);
    lemma_pow2_adds(pad, e);
    lemma_pow2_pos(e);
    vstd::arithmetic::div_mod::lemma_div_denominator(v, pow2(pad) as int, pow2(e) as int);
    vstd::arithmetic::div_mod::lemma_div_multiples_vanish(s.low, pow2(pad) as int);
    assert(pow2(pad) as int * s.low == v) by (nonlinear_arith)
        requires
            v == s.low * pow2(pad) as int,
    ;
}

/// Whether a decoder is exactly at the point of the bytes of `h` that an encoder
/// in state `s` has reached.
spec fn in_step(d: DecState, s: EncState, h: Seq<Sym>) -> bool {
    let f = enc_run(h);
    &&& d.data == coded_bytes(h)
    &&& d.range == s.range
    &&& s.shift <= f.shift
    &&& d.pos == 8 + s.shift
    &&& d.value == f.low / pow2((f.shift - s.shift) as nat) as int - s.low
}

proof fn lemma_in_step_value(d: DecState, s: EncState, h: Seq<Sym>)
    requires
        in_step(d, s, h),
        holds_target(s, enc_run(h)),
    ensures
        0 <= d.value < d.range,
{
    let f = enc_run(h);
    let p = pow2((f.shift - s.shift) as nat) as int;
    lemma_pow2_pos((f.shift - s.shift) as nat);
    lemma_enc_run(h);
    let q = f.low / p;
    vstd::arithmetic::div_mod::lemma_fundamental_div_mod(f.low, p);
    assert(s.low <= q) by (nonlinear_arith)
        requires
            s.low * p <= f.low,
            f.low == p * q + f.low % p,
            f.low % p < p,
            p > 0,
    ;
    assert(q < s.low + s.range) by (nonlinear_arith)
        requires
            f.low < (s.low + s.range) * p,
            f.low == p * q + f.low % p,
            0 <= f.low % p,
            p > 0,
    ;
}

proof fn lemma_in_step_norm(d: DecState, s: EncState, h: Seq<Sym>)
    requires
        in_step(d, s, h),
        holds_target(enc_norm(s), enc_run(h)),
        1 <= s.range <= 255,
    ensures
        in_step(dec_norm(d), enc_norm(s), h),
    decreases norm_gap(s.range),
{
    if s.range < 128 {
        let f = enc_run(h);
        let s2 = enc_double(s);
        lemma_target_before_norm(s2, f);
        lemma_target_before_norm(s, f);
        lemma_in_step_value(d, s, h);
        lemma_coded_len(h);
        lemma_enc_run(h);
        lemma_coded_bit(h, d.pos);
        let e = (f.shift - s2.shift) as nat;
        lemma_pow2_unfold((e + 1) as nat);
        lemma_pow2_pos(e);
        let p = pow2(e) as int;
        vstd::arithmetic::div_mod::lemma_div_denominator(f.low, p, 2);
        assert(p * 2 == pow2((e + 1) as nat)) by (nonlinear_arith)
            requires
                pow2((e + 1) as nat) == 2 * pow2(e),
                p == pow2(e),
        ;
        assert((f.low / p) / 2 == f.low / pow2((e + 1) as nat) as int);
        assert(f.low / p == 2 * ((f.low / p) / 2) + (f.low / p) % 2);
        assert(in_step(
            DecState { data: d.data, pos: d.pos + 1, value: 2 * d.value + bit_at(d.data, d.pos), range: 2 * d.range },
            s2,
            h,
        ));
        lemma_in_step_value(
            DecState { data: d.data, pos: d.pos + 1, value: 2 * d.value + bit_at(d.data, d.pos), range: 2 * d.range },
            s2,
            h,
        );
        lemma_in_step_norm(dec_double(d), s2, h);
    }
}

proof fn lemma_decodes_from(d: DecState, h: Seq<Sym>, i: int)
    requires
        0 <= i <= h.len(),
        in_step(d, enc_run(h.take(i)), h),
    ensures
        decodes(d, h.skip(i)),
    decreases h.len() - i,
{
    if i < h.len() {
        let s = enc_run(h.take(i));
        let f = enc_run(h);
        let sym = h[i];
        lemma_enc_run(h.take(i));
        lemma_target_in_prefix(h, i);
        lemma_target_in_prefix(h, i + 1);
        assert(h.take(i + 1).drop_last() =~= h.take(i));
        assert(h.take(i + 1).last() == sym);
        assert(enc_run(h.take(i + 1)) == enc_step(s, sym));
        lemma_target_before_step(s, sym, f);
        lemma_split_range(s.range, sym.0);
        let split = split_of(s.range, sym.0);
        let m = enc_narrow(s, sym);
        let bit = d.value >= split;
        // The target lies in the selected part, so the comparison finds the bit.
        let dm = dec_narrow(d, sym.0, sym.1);
        assert(in_step(dm, m, h));
        lemma_in_step_value(dm, m, h);
        assert(bit == sym.1);
        lemma_in_step_norm(dm, m, h);
        lemma_decodes_from(dec_norm(dm), h, i + 1);
        assert(h.skip(i)[0] == sym);
        assert(h.skip(i).drop_first() =~= h.skip(i + 1));
    }
}

/// Reading back the bytes of a symbol sequence, with the probabilities it was coded
/// at, returns its bits.
pub proof fn coded_bytes_decode(h: Seq<Sym>)
    ensures
        decodes(dec_init(coded_bytes(h)), h),
{
    let f = enc_run(h);
    let d = dec_init(coded_bytes(h));
    lemma_coded_len(h);
    lemma_enc_run(h);
    assert(h.take(0) =~= Seq::<Sym>::empty());
    assert(h.skip(0) =~= h);
    // The first byte is the top eight bits of the lower end.
    let len = coded_len(f);
    let pad = (8 * len - 8 - f.shift) as nat;
    let v = f.low * pow2(pad) as int;
    lemma_pow2_pos(pad);
    lemma_pow2_pos(f.shift);
    lemma_pow2_adds(pad, f.shift);
    lemma_pow2_adds(8, f.shift);
    vstd::arithmetic::power2::lemma2_to64();
    assert(v >= 0) by (nonlinear_arith)
        requires
            v == f.low * pow2(pad) as int,
            f.low >= 0,
            pow2(pad) > 0,
    ;
    lemma_first_byte(v, len);
    vstd::arithmetic::div_mod::lemma_div_denominator(v, pow2(pad) as int, pow2(f.shift) as int);
    vstd::arithmetic::div_mod::lemma_div_multiples_vanish(f.low, pow2(pad) as int);
    assert(pow2(pad) as int * f.low == v) by (nonlinear_arith)
        requires
            v == f.low * pow2(pad) as int,
    ;
    assert((8 * (len - 1)) as nat == pad + f.shift);
    let top = f.low / pow2(f.shift) as int;
    vstd::arithmetic::div_mod::lemma_fundamental_div_mod(f.low, pow2(f.shift) as int);
    assert(0 <= top < 256) by (nonlinear_arith)
        requires
            f.low == pow2(f.shift) as int * top + f.low % (pow2(f.shift) as int),
            0 <= f.low % (pow2(f.shift) as int) < pow2(f.shift),
            0 <= f.low < 256 * pow2(f.shift),
            pow2(f.shift) > 0,
    ;
    assert(in_step(d, enc_init(), h));
    lemma_decodes_from(d, h, 0);
}

proof fn lemma_first_byte(v: int, len: nat)
    requires
        0 <= v,
        len > 0,
    ensures
        be_bytes(v, len).len() == len,
        be_bytes(v, len)[0] == ((v / pow2((8 * (len - 1)) as nat) as int) % 256) as u8,
    decreases len,
{
    lemma_be_bytes_len(v, len);
    vstd::arithmetic::power2::lemma2_to64();
    if len > 1 {
        lemma_first_byte(v / 256, (len - 1) as nat);
        let e = (8 * (len - 2)) as nat;
        lemma_pow2_adds(8, e);
        lemma_pow2_pos(e);
        vstd::arithmetic::div_mod::lemma_div_denominator(v, 256, pow2(e) as int);
        assert((8 * (len - 1)) as nat == 8 + e);
        lemma_be_bytes_len(v / 256, (len - 1) as nat);
        assert(be_bytes(v, len)[0] == be_bytes(v / 256, (len - 1) as nat)[0]);
    } else {
        assert(be_bytes(v / 256, 0) =~= Seq::<u8>::empty());
        assert(v / 1 == v);
    }
}

} // verus!
