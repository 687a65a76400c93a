//! The boolean entropy encoder.
//!
//! The encoder's abstract value is the sequence of symbols written so far;
//! [`BoolEncoder::finish`] returns exactly [`coded_bytes`] of it.

use vstd::arithmetic::power2::{pow2, lemma_pow2_adds, lemma_pow2_pos, lemma_pow2_unfold, lemma2_to64};
use vstd::prelude::*;

use crate::coder::{
    be_val, coded_bytes, coded_len, enc_double, enc_narrow, enc_norm, enc_run, enc_step,
    lemma_be_val_digits, lemma_enc_run, lemma_enc_step, lemma_split_range, norm_gap, EncState, Sym,
};

verus! {

/// Writes booleans, flags and literals into a compressed partition.
pub struct BoolEncoder {
    /// Bytes whose value is settled, up to a carry.
    out: Vec<u8>,
    /// The interval's lower end below the settled bytes.
    value: u32,
    /// The weight of one unit of `out`'s last byte in units of `value`.
    unit: u32,
    /// Size of the interval.
    range: u32,
    /// The symbols written so far.
    history: Ghost<Seq<Sym>>,
}

impl View for BoolEncoder {
    type V = Seq<Sym>;

    closed spec fn view(&self) -> Seq<Sym> {
        self.history@
    }
}

/// The symbols of the `n` low bits of `v`, most significant first, at even odds.
pub open spec fn literal_syms(v: int, n: nat) -> Seq<Sym>
    decreases n,
{
    if n == 0 {
        Seq::empty()
    } else {
        literal_syms(v / 2, (n - 1) as nat).push((128u8, v % 2 == 1))
    }
}

/// The symbols of a signed value: its magnitude in `n` bits, then its sign.
pub open spec fn signed_syms(v: int, n: nat) -> Seq<Sym> {
    literal_syms(
        if v < 0 {
            -v
        } else {
            v
        },
        n,
    ).push((128u8, v < 0))
}

/// The digits and rest of an encoder stand for the interval `s`, with `rem` bits
/// below the settled bytes.
spec fn stands_for(out: Seq<u8>, value: int, unit: int, rem: nat, s: EncState) -> bool {
    &&& unit == pow2(rem)
    &&& 0 <= value < unit
    &&& be_val(out) * unit + value == s.low
    &&& 8 * out.len() + rem == 8 + s.shift
}

proof fn lemma_be_val_bound(s: Seq<u8>)
    ensures
        0 <= be_val(s) < pow2(8 * s.len()),
    decreases s.len(),
{
    lemma2_to64();
    if s.len() > 0 {
        lemma_be_val_bound(s.drop_last());
        lemma_pow2_adds((8 * (s.len() - 1)) as nat, 8);
        assert((8 * (s.len() - 1)) as nat + 8 == 8 * s.len());
    }
}

proof fn lemma_be_val_push(s: Seq<u8>, b: u8)
    ensures
        be_val(s.push(b)) == be_val(s) * 256 + b,
{
    assert(s.push(b).drop_last() =~= s);
}

/// Add one to the number whose digits are `out`.
fn carry(out: &mut Vec<u8>)
    requires
        be_val(old(out)@) + 1 < pow2(8 * old(out)@.len()),
    ensures
        be_val(final(out)@) == be_val(old(out)@) + 1,
        final(out)@.len() == old(out)@.len(),
{
    let mut zeros: usize = 0;
    let digits: usize = out.len();
    proof {
        lemma2_to64();
    }
    assert(be_val(out@) * pow2(0) == be_val(out@)) by (nonlinear_arith)
        requires
            pow2(0) == 1,
    ;
    while out.len() > 0 && out[out.len() - 1] == 255
        invariant
            out@.len() + zeros == digits,
            digits == old(out)@.len(),
            be_val(old(out)@) == be_val(out@) * pow2(8 * zeros as nat) + pow2(8 * zeros as nat) - 1,
        decreases out@.len(),
    {
        proof {
            let n = (8 * zeros) as nat;
            lemma_pow2_adds(n, 8);
            lemma2_to64();
            let v = be_val(out@.drop_last());
            let p = pow2(n) as int;
            assert((v * 256 + 255) * p + p - 1 == v * (p * 256) + p * 256 - 1) by (nonlinear_arith);
            assert(out@.subrange(0, out@.len() - 1) =~= out@.drop_last());
            assert((8 * (zeros + 1)) as nat == n + 8);
        }
        out.pop();
        zeros = zeros + 1;
    }
    proof {
        if out@.len() == 0 {
            assert(be_val(out@) * pow2(8 * zeros as nat) == 0) by (nonlinear_arith)
                requires
                    be_val(out@) == 0,
            ;
            assert(8 * zeros as nat == 8 * old(out)@.len());
            assert(false);
        }
    }
    let last: usize = out.len() - 1;
    let d: u8 = out[last];
    let ghost before = out@;
    out[last] = d + 1;
    proof {
        assert(out@.drop_last() =~= before.drop_last());
        assert(be_val(out@) == be_val(before) + 1);
        let p = pow2(8 * zeros as nat) as int;
        assert((be_val(before) + 1) * p == be_val(before) * p + p) by (nonlinear_arith);
    }
    while zeros > 0
        invariant
            out@.len() + zeros == old(out)@.len(),
            be_val(old(out)@) + 1 == be_val(out@) * pow2(8 * zeros as nat),
        decreases zeros,
    {
        proof {
            let n = (8 * (zeros - 1)) as nat;
            lemma_pow2_adds(n, 8);
            lemma2_to64();
            lemma_be_val_push(out@, 0);
            let v = be_val(out@);
            let p = pow2(n) as int;
            assert(v * (p * 256) == (v * 256) * p) by (nonlinear_arith);
            assert(n + 8 == 8 * zeros);
        }
        out.push(0);
        zeros = zeros - 1;
    }
    proof {
        lemma2_to64();
        assert(be_val(out@) * pow2(0) == be_val(out@)) by (nonlinear_arith)
            requires
                pow2(0) == 1,
        ;
    }
}

impl BoolEncoder {
    spec fn rem(&self) -> nat {
        (8 + enc_run(self.history@).shift - 8 * self.out@.len()) as nat
    }

    /// The stored digits, rest and range are those of the symbols written so far.
    pub closed spec fn wf(&self) -> bool {
        let s = enc_run(self.history@);
        &&& self.range == s.range
        &&& 8 * self.out@.len() <= 8 + s.shift
        &&& stands_for(self.out@, self.value as int, self.unit as int, self.rem(), s)
        &&& 8 <= self.rem() <= 16
        &&& (self.rem() >= 9 || s.shift == 0)
    }

    /// An empty partition.
    pub fn new() -> (r: Self)
        ensures
            r.wf(),
            r@ == Seq::<Sym>::empty(),
    {
        proof {
            lemma2_to64();
        }
        BoolEncoder { out: Vec::new(), value: 0, unit: 256, range: 255, history: Ghost(Seq::empty()) }
    }

    /// Write `bit` at probability `prob` of being zero.
    pub fn put_bool(&mut self, prob: u8, bit: bool)
        requires
            old(self).wf(),
        ensures
            final(self).wf(),
            final(self)@ == old(self)@.push((prob, bit)),
    {
        let ghost h = self.history@;
        let ghost s0 = enc_run(h);
        let ghost h2 = h.push((prob, bit));
        proof {
            lemma_enc_run(h);
            lemma_split_range(s0.range, prob);
            lemma_enc_step(s0, (prob, bit));
            assert(h2.drop_last() =~= h);
            lemma_be_val_bound(self.out@);
            assert((self.range - 1) * prob <= 254 * 255) by (nonlinear_arith)
                requires
                    128 <= self.range <= 255,
                    prob <= 255,
            ;
            lemma2_to64();
            lemma_unit_bounds(self.rem());
        }
        let split: u32 = 1 + ((self.range - 1) * prob as u32) / 256;
        let ghost rem = self.rem();
        let ghost m = enc_narrow(s0, (prob, bit));
        if bit {
            self.value = self.value + split;
            self.range = self.range - split;
            if self.value >= self.unit {
                proof {
                    // The lower end stays below `2^(8 + shift)`, so there is room.
                    let v = be_val(self.out@);
                    let u = self.unit as int;
                    assert((v + 1) * u <= m.low) by (nonlinear_arith)
                        requires
                            v * u + self.value as int == m.low,
                            self.value >= u,
                    ;
                    lemma_pow2_adds((8 * self.out@.len()) as nat, rem);
                    let p = pow2(8 * self.out@.len()) as int;
                    assert(m.low < p * u) by {
                        assert(m.low + m.range <= pow2(8 + s0.shift));
                    }
                    assert(v + 1 < p) by (nonlinear_arith)
                        requires
                            (v + 1) * u <= m.low,
                            m.low < p * u,
                            u > 0,
                    ;
                }
                let ghost v0 = be_val(self.out@);
                carry(&mut self.out);
                proof {
                    let u = self.unit as int;
                    assert((v0 + 1) * u + (self.value - u) == v0 * u + self.value) by (nonlinear_arith);
                }
                self.value = self.value - self.unit;
            }
        } else {
            self.range = split;
        }
        let ghost mut s = m;
        let ghost mut r = rem;
        while self.range < 128
            invariant
                stands_for(self.out@, self.value as int, self.unit as int, r, s),
                self.range == s.range,
                1 <= s.range <= 255,
                enc_norm(s) == enc_step(s0, (prob, bit)),
                self.history@ == h,
                rem <= r <= 23,
                8 <= rem <= 16,
                r as int == rem + s.shift - s0.shift,
                s.range >= pow2((r - rem) as nat),
                (r >= 9 || (r == rem && s.shift == s0.shift && s0.shift == 0)),
            decreases norm_gap(self.range as int),
        {
            proof {
                lemma_pow2_unfold(r + 1);
                lemma_pow2_unfold((r - rem + 1) as nat);
                lemma_unit_bounds(r);
                let v = be_val(self.out@);
                let u = self.unit as int;
                assert(v * (2 * u) + 2 * self.value == 2 * (v * u + self.value)) by (nonlinear_arith);
                if r - rem >= 7 {
                    lemma_pow2_mono(7, (r - rem) as nat);
                    lemma2_to64();
                }
            }
            self.range = self.range * 2;
            self.value = self.value * 2;
            self.unit = self.unit * 2;
            proof {
                s = enc_double(s);
                r = r + 1;
            }
        }
        proof {
            lemma_unit_bounds(r);
        }
        if self.unit > 65536 {
            proof {
                if r <= 16 {
                    lemma_pow2_mono(r, 16);
                    lemma2_to64();
                }
                let e = (r - 8) as nat;
                lemma_pow2_adds(e, 8);
                lemma2_to64();
                lemma_unit_bounds(e);
                assert(self.unit == pow2(e) * 256);
                assert(self.unit / 256 == pow2(e));
            }
            let low_unit: u32 = self.unit / 256;
            let byte: u32 = self.value / low_unit;
            proof {
                let a = self.value as int;
                let b = low_unit as int;
                vstd::arithmetic::div_mod::lemma_fundamental_div_mod(a, b);
                assert(a / b < 256) by (nonlinear_arith)
                    requires
                        a == b * (a / b) + a % b,
                        0 <= a % b,
                        a < b * 256,
                        b > 0,
                ;
                lemma_be_val_push(self.out@, byte as u8);
                let v = be_val(self.out@);
                assert((v * 256 + a / b) * b + a % b == v * (b * 256) + a) by (nonlinear_arith)
                    requires
                        a == b * (a / b) + a % b,
                ;
            }
            self.out.push(byte as u8);
            self.value = self.value % low_unit;
            self.unit = low_unit;
            proof {
                r = (r - 8) as nat;
            }
        } else {
            proof {
                if r > 16 {
                    lemma_pow2_mono(17, r);
                    lemma2_to64();
                }
            }
        }
        self.history = Ghost(h2);
        proof {
            assert(enc_run(h2) == enc_step(s0, (prob, bit)));
        }
    }

    /// Write `bit` at even odds.
    pub fn put_flag(&mut self, bit: bool)
        requires
            old(self).wf(),
        ensures
            final(self).wf(),
            final(self)@ == old(self)@.push((128u8, bit)),
    {
        self.put_bool(128, bit);
    }

    /// Write the `n` low bits of `v`, most significant first.
    pub fn put_literal(&mut self, n: u32, v: u32)
        requires
            old(self).wf(),
            n <= 32,
        ensures
            final(self).wf(),
            final(self)@ == old(self)@ + literal_syms(v as int, n as nat),
        decreases n,
    {
        if n > 0 {
            self.put_literal(n - 1, v / 2);
            self.put_flag(v % 2 == 1);
            assert(self@ =~= old(self)@ + literal_syms(v as int, n as nat));
        } else {
            assert(self@ =~= old(self)@ + literal_syms(v as int, n as nat));
        }
    }

    /// Write the magnitude of `v` in `n` bits, then its sign.
    pub fn put_signed(&mut self, n: u32, v: i32)
        requires
            old(self).wf(),
            n <= 32,
        ensures
            final(self).wf(),
            final(self)@ == old(self)@ + signed_syms(v as int, n as nat),
    {
        let magnitude: u32 = if v < 0 {
            (-(v as i64)) as u32
        } else {
            v as u32
        };
        self.put_literal(n, magnitude);
        self.put_flag(v < 0);
        assert(self@ =~= old(self)@ + signed_syms(v as int, n as nat));
    }

    /// Pad to whole bytes and return the partition.
    pub fn finish(self) -> (r: Vec<u8>)
        requires
            self.wf(),
        ensures
            r@ == coded_bytes(self@),
    {
        let mut enc = self;
        let ghost s = enc_run(enc.history@);
        let ghost h = enc.history@;
        let ghost rem = enc.rem();
        let ghost mut k: nat = 0;
        let full: bool = enc.unit == 65536;
        proof {
            lemma_enc_run(h);
            lemma2_to64();
            if rem < 16 {
                vstd::arithmetic::power2::lemma_pow2_strictly_increases(rem, 16);
            }
            assert(full <==> rem == 16);
            assert(s.low * pow2(0) == s.low) by (nonlinear_arith)
                requires
                    pow2(0) == 1,
            ;
        }
        while enc.unit < 65536
            invariant
                rem + k <= 16,
                enc.unit == pow2(rem + k),
                0 <= enc.value < enc.unit,
                be_val(enc.out@) * enc.unit + enc.value == s.low * pow2(k),
                8 * enc.out@.len() + rem == 8 + s.shift,
                enc.range == s.range,
            decreases 65536 - enc.unit,
        {
            proof {
                lemma_pow2_unfold(rem + k + 1);
                lemma_pow2_unfold(k + 1);
                lemma2_to64();
                if rem + k >= 16 {
                    lemma_pow2_mono(16, rem + k);
                }
                let v = be_val(enc.out@);
                let u = enc.unit as int;
                let p = pow2(k) as int;
                assert(v * (2 * u) + 2 * enc.value == s.low * (2 * p)) by (nonlinear_arith)
                    requires
                        v * u + enc.value == s.low * p,
                ;
                lemma_pow2_pos(rem + k);
            }
            enc.value = enc.value * 2;
            enc.unit = enc.unit * 2;
            proof {
                k = k + 1;
            }
        }
        proof {
            lemma2_to64();
            if rem + k < 16 {
                lemma_pow2_mono(rem + k + 1, 16);
                lemma_pow2_unfold(rem + k + 1);
                lemma_pow2_pos(rem + k);
            }
            assert(rem + k == 16);
            let v = be_val(enc.out@);
            let u = enc.unit as int;
            assert(u == 65536);
            assert(v * u == v * 65536);
            lemma_be_val_push(enc.out@, (enc.value / 256) as u8);
            lemma_be_val_push(enc.out@.push((enc.value / 256) as u8), (enc.value % 256) as u8);
        }
        enc.out.push((enc.value / 256) as u8);
        enc.out.push((enc.value % 256) as u8);
        assert(be_val(enc.out@) == s.low * pow2(k));
        if full {
            proof {
                lemma_be_val_push(enc.out@, 0);
                lemma_pow2_adds(k, 8);
                let p = pow2(k) as int;
                assert((s.low * p) * 256 == s.low * (p * 256)) by (nonlinear_arith);
                k = k + 8;
            }
            enc.out.push(0);
        }
        proof {
            let len = coded_len(s);
            assert(enc.out@.len() == len);
            assert((8 * len - 8 - s.shift) as nat == k);
            lemma_be_val_digits(enc.out@);
        }
        enc.out
    }
}

proof fn lemma_pow2_mono(a: nat, b: nat)
    requires
        a <= b,
    ensures
        pow2(a) <= pow2(b),
{
    if a < b {
        vstd::arithmetic::power2::lemma_pow2_strictly_increases(a, b);
    }
}

proof fn lemma_unit_bounds(r: nat)
    requires
        r <= 24,
    ensures
        1 <= pow2(r) <= 16777216,
        r >= 8 ==> pow2(r) >= 256,
{
    lemma_pow2_mono(r, 24);
    lemma_pow2_pos(r);
    lemma2_to64();
    if r >= 8 {
        lemma_pow2_mono(8, r);
    }
}

} // verus!
