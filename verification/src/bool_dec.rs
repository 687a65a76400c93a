//! The boolean entropy decoder.
//!
//! The decoder's abstract value is the ideal decoder state [`DecState`]; every read
//! advances it by [`dec_step`].

use vstd::arithmetic::power2::{pow2, lemma_pow2_unfold, lemma2_to64};
use vstd::prelude::*;

use crate::bool_enc::{literal_syms, signed_syms};
use crate::coder::{
    dec_after, dec_double, dec_init, dec_norm, dec_step, decodes, lemma_decodes_concat,
    lemma_split_range, norm_gap, DecState, Sym,
};

verus! {

/// Reads booleans, flags and literals from a compressed partition.
pub struct BoolDecoder<'a> {
    /// The partition's bytes.
    data: &'a [u8],
    /// Index of the byte that holds the next bit.
    byte: usize,
    /// Weight of the next bit within that byte.
    weight: u8,
    /// Offset of the coded number within the interval.
    value: u32,
    /// Size of the interval.
    range: u32,
}

impl<'a> View for BoolDecoder<'a> {
    type V = DecState;

    closed spec fn view(&self) -> DecState {
        DecState {
            data: self.data@,
            pos: 8 * self.byte + (7 - weight_exp(self.weight)),
            value: self.value as int,
            range: self.range as int,
        }
    }
}

/// The exponent of a power of two below 256.
spec fn weight_exp(w: u8) -> int {
    if w == 1 {
        0
    } else if w == 2 {
        1
    } else if w == 4 {
        2
    } else if w == 8 {
        3
    } else if w == 16 {
        4
    } else if w == 32 {
        5
    } else if w == 64 {
        6
    } else {
        7
    }
}

spec fn is_weight(w: u8) -> bool {
    w == 1 || w == 2 || w == 4 || w == 8 || w == 16 || w == 32 || w == 64 || w == 128
}

/// Read the `n` bits of a literal, most significant first.
pub open spec fn read_literal_spec(d: DecState, n: nat) -> (int, DecState)
    decreases n,
{
    if n == 0 {
        (0, d)
    } else {
        let (v, d1) = read_literal_spec(d, (n - 1) as nat);
        let (bit, d2) = dec_step(d1, 128);
        (2 * v + bit as int, d2)
    }
}

/// Read a magnitude of `n` bits and a sign.
pub open spec fn read_signed_spec(d: DecState, n: nat) -> (int, DecState) {
    let (v, d1) = read_literal_spec(d, n);
    let (neg, d2) = dec_step(d1, 128);
    (
        if neg {
            -v
        } else {
            v
        },
        d2,
    )
}

/// A literal of `n` bits is below `2^n`.
pub proof fn lemma_read_literal_range(d: DecState, n: nat)
    ensures
        0 <= read_literal_spec(d, n).0 < pow2(n),
    decreases n,
{
    lemma2_to64();
    if n > 0 {
        lemma_read_literal_range(d, (n - 1) as nat);
        lemma_pow2_unfold(n);
    }
}

/// Reading a written literal returns it.
pub proof fn read_literal_inverts_put_literal(d: DecState, v: int, n: nat)
    requires
        0 <= v < pow2(n),
        decodes(d, literal_syms(v, n)),
    ensures
        read_literal_spec(d, n) == (v, dec_after(d, literal_syms(v, n))),
    decreases n,
{
    lemma2_to64();
    if n > 0 {
        let head = literal_syms(v / 2, (n - 1) as nat);
        let tail: Seq<Sym> = seq![(128u8, v % 2 == 1)];
        assert(literal_syms(v, n) =~= head + tail);
        lemma_decodes_concat(d, head, tail);
        lemma_pow2_unfold(n);
        read_literal_inverts_put_literal(d, v / 2, (n - 1) as nat);
        assert(tail.drop_first() =~= Seq::<Sym>::empty());
        reveal_with_fuel(dec_after, 2);
        reveal_with_fuel(decodes, 2);
    }
}

/// Reading a written signed value returns it.
pub proof fn read_signed_inverts_put_signed(d: DecState, v: int, n: nat)
    requires
        -pow2(n) < v < pow2(n),
        decodes(d, signed_syms(v, n)),
    ensures
        read_signed_spec(d, n) == (v, dec_after(d, signed_syms(v, n))),
{
    let m = if v < 0 {
        -v
    } else {
        v
    };
    let head = literal_syms(m, n);
    let tail: Seq<Sym> = seq![(128u8, v < 0)];
    assert(signed_syms(v, n) =~= head + tail);
    lemma_decodes_concat(d, head, tail);
    read_literal_inverts_put_literal(d, m, n);
    assert(tail.drop_first() =~= Seq::<Sym>::empty());
    reveal_with_fuel(dec_after, 2);
    reveal_with_fuel(decodes, 2);
}

impl<'a> BoolDecoder<'a> {
    /// The window lies in a normalized interval.
    pub closed spec fn wf(&self) -> bool {
        &&& 128 <= self.range <= 255
        &&& self.value <= self.range
        &&& is_weight(self.weight)
        &&& self.byte <= self.data@.len()
        &&& (self.byte == self.data@.len() ==> self.weight == 128)
    }

    /// The bytes being read.
    pub closed spec fn bytes(&self) -> Seq<u8> {
        self.data@
    }

    /// Start reading `data`.
    pub fn new(data: &'a [u8]) -> (r: Self)
        ensures
            r.wf(),
            r@ == dec_init(data@),
    {
        if data.len() == 0 {
            BoolDecoder { data, byte: 0, weight: 128, value: 0, range: 255 }
        } else {
            let first: u8 = data[0];
            BoolDecoder { data, byte: 1, weight: 128, value: first as u32, range: 255 }
        }
    }

    /// Read one boolean coded at probability `prob` of being zero.
    pub fn read_bool(&mut self, prob: u8) -> (bit: bool)
        requires
            old(self).wf(),
        ensures
            final(self).wf(),
            (bit, final(self)@) == dec_step(old(self)@, prob),
    {
        proof {
            lemma_split_range(self.range as int, prob);
            assert((self.range - 1) * prob <= 254 * 255) by (nonlinear_arith)
                requires
                    128 <= self.range <= 255,
                    prob <= 255,
            ;
        }
        let split: u32 = 1 + ((self.range - 1) * prob as u32) / 256;
        let bit: bool = self.value >= split;
        if bit {
            self.value = self.value - split;
            self.range = self.range - split;
        } else {
            self.range = split;
        }
        let ghost target = dec_step(old(self)@, prob).1;
        while self.range < 128
            invariant
                1 <= self.range <= 255,
                self.value <= self.range,
                is_weight(self.weight),
                self.byte <= self.data@.len(),
                self.byte == self.data@.len() ==> self.weight == 128,
                dec_norm(self@) == target,
            decreases norm_gap(self.range as int),
        {
            let ghost before = self@;
            let mut next: u32 = 0;
            if self.byte < self.data.len() {
                proof {
                    lemma2_to64();
                    let k = weight_exp(self.weight);
                    assert(before.pos / 8 == self.byte as int);
                    assert(before.pos % 8 == 7 - k);
                    assert(self.weight == pow2(k as nat));
                }
                let b: u8 = self.data[self.byte];
                next = ((b / self.weight) % 2) as u32;
                if self.weight == 1 {
                    self.byte = self.byte + 1;
                    self.weight = 128;
                } else {
                    self.weight = self.weight / 2;
                }
            }
            self.value = 2 * self.value + next;
            self.range = 2 * self.range;
            if self.value > self.range {
                self.value = self.range;
            }
            assert(self@ == dec_double(before));
        }
        bit
    }

    /// Read a boolean coded at even odds.
    pub fn read_flag(&mut self) -> (bit: bool)
        requires
            old(self).wf(),
        ensures
            final(self).wf(),
            (bit, final(self)@) == dec_step(old(self)@, 128),
    {
        self.read_bool(128)
    }

    /// Read an `n`-bit literal, most significant bit first.
    pub fn read_literal(&mut self, n: u32) -> (v: u32)
        requires
            old(self).wf(),
            n <= 32,
        ensures
            final(self).wf(),
            (v as int, final(self)@) == read_literal_spec(old(self)@, n as nat),
            v < pow2(n as nat),
    {
        let mut v: u32 = 0;
        let mut i: u32 = 0;
        proof {
            lemma2_to64();
        }
        while i < n
            invariant
                i <= n,
                n <= 32,
                self.wf(),
                (v as int, self@) == read_literal_spec(old(self)@, i as nat),
            decreases n - i,
        {
            proof {
                lemma_read_literal_range(old(self)@, i as nat);
                lemma_read_literal_range(old(self)@, (i + 1) as nat);
                lemma_pow2_unfold((i + 1) as nat);
                lemma2_to64();
                if i < 31 {
                    vstd::arithmetic::power2::lemma_pow2_strictly_increases(i as nat, 31);
                }
            }
            let bit: bool = self.read_flag();
            v = 2 * v + (if bit {
                1
            } else {
                0
            });
            i = i + 1;
        }
        proof {
            lemma_read_literal_range(old(self)@, n as nat);
        }
        v
    }

    /// Read a signed value: an `n`-bit magnitude, then its sign.
    pub fn read_signed(&mut self, n: u32) -> (v: i32)
        requires
            old(self).wf(),
            n <= 31,
        ensures
            final(self).wf(),
            (v as int, final(self)@) == read_signed_spec(old(self)@, n as nat),
            -pow2(n as nat) < v < pow2(n as nat),
    {
        let magnitude: u32 = self.read_literal(n);
        proof {
            lemma2_to64();
            if n < 31 {
                vstd::arithmetic::power2::lemma_pow2_strictly_increases(n as nat, 31);
            }
        }
        let neg: bool = self.read_flag();
        if neg {
            -(magnitude as i32)
        } else {
            magnitude as i32
        }
    }

    /// Read a sign bit and apply it to `v`.
    pub fn apply_sign(&mut self, v: i32) -> (r: i32)
        requires
            old(self).wf(),
            v > i32::MIN,
        ensures
            final(self).wf(),
            final(self)@ == dec_step(old(self)@, 128).1,
            r == (if dec_step(old(self)@, 128).0 {
                -v
            } else {
                v as int
            }),
    {
        if self.read_flag() {
            -v
        } else {
            v
        }
    }
}

} // verus!
