//! What one step of the entropy coder does.

use vstd::arithmetic::power2::lemma2_to64;
use vstd::prelude::*;

use crate::coder::{
    bit_at, dec_double, dec_init, dec_narrow, dec_norm, dec_step, enc_double, enc_init, enc_narrow,
    enc_norm, enc_step, DecState, EncState, Sym,
};

verus! {

/// How far a part of the interval is scaled up: to 128 or more.
pub open spec fn scale(r: int) -> int {
    if r >= 128 {
        1
    } else if r >= 64 {
        2
    } else if r >= 32 {
        4
    } else if r >= 16 {
        8
    } else if r >= 8 {
        16
    } else if r >= 4 {
        32
    } else if r >= 2 {
        64
    } else {
        128
    }
}

/// How many bits that scaling shifts in.
pub open spec fn bits_of(scale: int) -> int {
    if scale == 1 {
        0
    } else if scale == 2 {
        1
    } else if scale == 4 {
        2
    } else if scale == 8 {
        3
    } else if scale == 16 {
        4
    } else if scale == 32 {
        5
    } else if scale == 64 {
        6
    } else {
        7
    }
}

/// Where a probability splits an interval: the part for a zero is that share of all but one
/// of it, and one.
pub open spec fn zero_part(range: int, p: u8) -> int {
    1 + ((range - 1) * p) / 256
}

proof fn lemma_parts(range: int, p: u8)
    requires
        128 <= range <= 255,
    ensures
        1 <= zero_part(range, p) < range,
{
    let t = (range - 1) * p;
    assert(0 <= t <= (range - 1) * 255) by (nonlinear_arith)
        requires
            t == (range - 1) * p,
            0 <= p <= 255,
            128 <= range,
    ;
}

/// Reading a bit: it is zero where the value lies in the first part of the interval; the
/// part that it lies in is scaled to between 128 and 255, and as many bits follow.
pub proof fn bits_are_read_from_the_interval(d: DecState, p: u8)
    requires
        128 <= d.range <= 255,
        0 <= d.value < d.range,
        0 <= d.pos,
    ensures
        ({
            let zero = zero_part(d.range, p);
            let (bit, next) = dec_step(d, p);
            let part = if bit {
                d.range - zero
            } else {
                zero
            };
            let value = if bit {
                d.value - zero
            } else {
                d.value
            };
            let k = scale(part);
            &&& bit == (d.value >= zero)
            &&& next.range == part * k
            &&& 128 <= next.range <= 255
            &&& value * k <= next.value < (value + 1) * k
            &&& next.value < next.range
            &&& next.data == d.data
            &&& d.pos + bits_of(k) <= 8 * d.data.len() ==> next.pos == d.pos + bits_of(k)
        }),
{
    let zero = zero_part(d.range, p);
    lemma_parts(d.range, p);
    let bit = d.value >= zero;
    let n = dec_narrow(d, p, bit);
    lemma_norm(n);
}

/// Scaling up by doubling.
proof fn lemma_norm(d: DecState)
    requires
        1 <= d.range <= 255,
        0 <= d.value < d.range,
        0 <= d.pos,
    ensures
        ({
            let next = dec_norm(d);
            let k = scale(d.range);
            &&& next.range == d.range * k
            &&& 128 <= next.range <= 255
            &&& d.value * k <= next.value < (d.value + 1) * k
            &&& next.value < next.range
            &&& next.data == d.data
            &&& d.pos + bits_of(k) <= 8 * d.data.len() ==> next.pos == d.pos + bits_of(k)
        }),
    decreases 256 - d.range,
{
    let k = scale(d.range);
    let r = d.range;
    let v = d.value;
    if d.range < 128 {
        let e = dec_double(d);
        lemma_bit(d.data, d.pos);
        let b = bit_at(d.data, d.pos);
        assert(e.value == 2 * v + b);
        lemma_norm(e);
        let h = scale(2 * r);
        assert(k == 2 * h);
        assert(bits_of(k) == bits_of(h) + 1);
        assert((2 * r) * h == r * k && v * k <= (2 * v + b) * h && (2 * v + b + 1) * h <= (v + 1) * k)
            by (nonlinear_arith)
            requires
                k == 2 * h,
                0 <= b <= 1,
                0 <= h,
        ;
    } else {
        assert(r * k == r && v * k == v && (v + 1) * k == v + 1) by (nonlinear_arith)
            requires
                k == 1,
        ;
    }
}

proof fn lemma_bit(data: Seq<u8>, pos: int)
    ensures
        0 <= bit_at(data, pos) <= 1,
{
}

/// Bits are taken from each byte from its highest on; past the end they are zero.
pub proof fn bits_come_highest_first(data: Seq<u8>, i: int)
    requires
        0 <= i < data.len(),
    ensures
        ({
            let b = data[i] as int;
            &&& b == 128 * bit_at(data, 8 * i) + 64 * bit_at(data, 8 * i + 1) + 32 * bit_at(
                data,
                8 * i + 2,
            ) + 16 * bit_at(data, 8 * i + 3) + 8 * bit_at(data, 8 * i + 4) + 4 * bit_at(
                data,
                8 * i + 5,
            ) + 2 * bit_at(data, 8 * i + 6) + bit_at(data, 8 * i + 7)
            &&& bit_at(data, 8 * data.len() as int + i) == 0
        }),
{
    lemma2_to64();
    let b = data[i] as int;
    assert((8 * i) / 8 == i && (8 * i) % 8 == 0);
    assert((7 - (8 * i) % 8) as nat == 7);
    assert(bit_at(data, 8 * i) == (b / 128) % 2);
    assert((8 * i + 1) / 8 == i && (8 * i + 1) % 8 == 1);
    assert((7 - (8 * i + 1) % 8) as nat == 6);
    assert(bit_at(data, 8 * i + 1) == (b / 64) % 2);
    assert((8 * i + 2) / 8 == i && (8 * i + 2) % 8 == 2);
    assert((7 - (8 * i + 2) % 8) as nat == 5);
    assert(bit_at(data, 8 * i + 2) == (b / 32) % 2);
    assert((8 * i + 3) / 8 == i && (8 * i + 3) % 8 == 3);
    assert((7 - (8 * i + 3) % 8) as nat == 4);
    assert(bit_at(data, 8 * i + 3) == (b / 16) % 2);
    assert((8 * i + 4) / 8 == i && (8 * i + 4) % 8 == 4);
    assert((7 - (8 * i + 4) % 8) as nat == 3);
    assert(bit_at(data, 8 * i + 4) == (b / 8) % 2);
    assert((8 * i + 5) / 8 == i && (8 * i + 5) % 8 == 5);
    assert((7 - (8 * i + 5) % 8) as nat == 2);
    assert(bit_at(data, 8 * i + 5) == (b / 4) % 2);
    assert((8 * i + 6) / 8 == i && (8 * i + 6) % 8 == 6);
    assert((7 - (8 * i + 6) % 8) as nat == 1);
    assert(bit_at(data, 8 * i + 6) == (b / 2) % 2);
    assert((8 * i + 7) / 8 == i && (8 * i + 7) % 8 == 7);
    assert((7 - (8 * i + 7) % 8) as nat == 0);
    assert(bit_at(data, 8 * i + 7) == (b / 1) % 2);
}

/// Reading starts with the whole interval and the first byte.
pub proof fn reading_starts_at_the_first_byte(data: Seq<u8>)
    requires
        data.len() > 0,
    ensures
        dec_init(data) == (DecState { data, pos: 8, value: data[0] as int, range: 255 }),
{
}

/// Writing a bit: a zero takes the first part of the interval, a one the rest; the part is
/// scaled to between 128 and 255, and its lower end with it.
pub proof fn bits_are_written_into_the_interval(s: EncState, sym: Sym)
    requires
        128 <= s.range <= 255,
    ensures
        ({
            let zero = zero_part(s.range, sym.0);
            let part = if sym.1 {
                s.range - zero
            } else {
                zero
            };
            let low = if sym.1 {
                s.low + zero
            } else {
                s.low
            };
            let k = scale(part);
            let next = enc_step(s, sym);
            &&& next.range == part * k
            &&& 128 <= next.range <= 255
            &&& next.low == low * k
            &&& next.shift == s.shift + bits_of(k)
            &&& enc_init() == (EncState { low: 0, range: 255, shift: 0 })
        }),
{
    lemma_parts(s.range, sym.0);
    lemma_enc_norm(enc_narrow(s, sym));
}

proof fn lemma_enc_norm(s: EncState)
    requires
        1 <= s.range <= 255,
    ensures
        ({
            let next = enc_norm(s);
            let k = scale(s.range);
            &&& next.range == s.range * k
            &&& 128 <= next.range <= 255
            &&& next.low == s.low * k
            &&& next.shift == s.shift + bits_of(k)
        }),
    decreases 256 - s.range,
{
    let k = scale(s.range);
    let r = s.range;
    let l = s.low;
    if s.range < 128 {
        lemma_enc_norm(enc_double(s));
        let h = scale(2 * r);
        assert(k == 2 * h);
        assert(bits_of(k) == bits_of(h) + 1);
        assert((2 * r) * h == r * k && (2 * l) * h == l * k) by (nonlinear_arith)
            requires
                k == 2 * h,
        ;
    } else {
        assert(r * k == r && l * k == l) by (nonlinear_arith)
            requires
                k == 1,
        ;
    }
}

} // verus!
