//! Integer helpers shared by the pixel and rate code: clipping, and right shifts
//! read as floor division.

use vstd::prelude::*;

verus! {

/// `x >> 1` rounds `x / 2` down.
pub broadcast proof fn shr_1(x: i32)
    ensures
        #[trigger] (x >> 1i32) == x as int / 2,
{
    assert((x >> 1i32) == x / 2) by (bit_vector);
}

/// `x >> 2` rounds `x / 4` down.
pub broadcast proof fn shr_2(x: i32)
    ensures
        #[trigger] (x >> 2i32) == x as int / 4,
{
    assert((x >> 2i32) == x / 4) by (bit_vector);
}

/// `x >> 3` rounds `x / 8` down.
pub broadcast proof fn shr_3(x: i32)
    ensures
        #[trigger] (x >> 3i32) == x as int / 8,
{
    assert((x >> 3i32) == x / 8) by (bit_vector);
}

/// `x >> 4` rounds `x / 16` down.
pub broadcast proof fn shr_4(x: i32)
    ensures
        #[trigger] (x >> 4i32) == x as int / 16,
{
    assert((x >> 4i32) == x / 16) by (bit_vector);
}

/// `x >> 5` rounds `x / 32` down.
pub broadcast proof fn shr_5(x: i32)
    ensures
        #[trigger] (x >> 5i32) == x as int / 32,
{
    assert((x >> 5i32) == x / 32) by (bit_vector);
}

/// `x >> 7` rounds `x / 128` down.
pub broadcast proof fn shr_7(x: i32)
    ensures
        #[trigger] (x >> 7i32) == x as int / 128,
{
    assert((x >> 7i32) == x / 128) by (bit_vector);
}

/// `x >> 9` rounds `x / 512` down.
pub broadcast proof fn shr_9(x: i32)
    ensures
        #[trigger] (x >> 9i32) == x as int / 512,
{
    assert((x >> 9i32) == x / 512) by (bit_vector);
}

/// `x >> 16` rounds `x / 65536` down.
pub broadcast proof fn shr_16(x: i32)
    ensures
        #[trigger] (x >> 16i32) == x as int / 65536,
{
    assert((x >> 16i32) == x / 65536) by (bit_vector);
}

/// `x >> 16` rounds `x / 65536` down.
pub broadcast proof fn shr_16_wide(x: i64)
    ensures
        #[trigger] (x >> 16i32) == x as int / 65536,
{
    assert((x >> 16i32) == x / 65536) by (bit_vector);
}

/// `x >> 1` rounds `x / 2` down.
pub broadcast proof fn shr_1_wide(x: i64)
    ensures
        #[trigger] (x >> 1i32) == x as int / 2,
{
    assert((x >> 1i32) == x / 2) by (bit_vector);
}

/// `x >> 3` rounds `x / 8` down.
pub broadcast proof fn shr_3_wide(x: i64)
    ensures
        #[trigger] (x >> 3i32) == x as int / 8,
{
    assert((x >> 3i32) == x / 8) by (bit_vector);
}

/// `x >> 4` rounds `x / 16` down.
pub broadcast proof fn shr_4_wide(x: i64)
    ensures
        #[trigger] (x >> 4i32) == x as int / 16,
{
    assert((x >> 4i32) == x / 16) by (bit_vector);
}

/// `x >> 5` rounds `x / 32` down.
pub broadcast proof fn shr_5_wide(x: i64)
    ensures
        #[trigger] (x >> 5i32) == x as int / 32,
{
    assert((x >> 5i32) == x / 32) by (bit_vector);
}

/// `x >> 8` rounds `x / 256` down.
pub broadcast proof fn shr_8_wide(x: i64)
    ensures
        #[trigger] (x >> 8i32) == x as int / 256,
{
    assert((x >> 8i32) == x / 256) by (bit_vector);
}

/// `x >> 9` rounds `x / 512` down.
pub broadcast proof fn shr_9_wide(x: i64)
    ensures
        #[trigger] (x >> 9i32) == x as int / 512,
{
    assert((x >> 9i32) == x / 512) by (bit_vector);
}

/// `x >> 17` rounds `x / 131072` down.
pub broadcast proof fn shr_17_wide(x: i64)
    ensures
        #[trigger] (x >> 17i32) == x as int / 131072,
{
    assert((x >> 17i32) == x / 131072) by (bit_vector);
}

/// `x >> 6` rounds `x / 64` down.
pub broadcast proof fn shr_6(x: i32)
    ensures
        #[trigger] (x >> 6i32) == x as int / 64,
{
    assert((x >> 6i32) == x / 64) by (bit_vector);
}

/// `x >> 8` rounds `x / 256` down.
pub broadcast proof fn shr_8(x: i32)
    ensures
        #[trigger] (x >> 8i32) == x as int / 256,
{
    assert((x >> 8i32) == x / 256) by (bit_vector);
}

/// `x >> 18` rounds `x / 262144` down.
pub broadcast proof fn shr_18(x: i32)
    ensures
        #[trigger] (x >> 18i32) == x as int / 262144,
{
    assert((x >> 18i32) == x / 262144) by (bit_vector);
}

/// Right shifts by the amounts the codec uses, as floor divisions.
pub broadcast group group_shr {
    shr_1,
    shr_2,
    shr_3,
    shr_4,
    shr_5,
    shr_7,
    shr_9,
    shr_16,
    shr_16_wide,
    shr_1_wide,
    shr_3_wide,
    shr_4_wide,
    shr_5_wide,
    shr_8_wide,
    shr_9_wide,
    shr_17_wide,
    shr_6,
    shr_8,
    shr_18,
}

/// `v` limited to `lo..=hi`.
pub open spec fn clamp_int(v: int, lo: int, hi: int) -> int {
    if v < lo {
        lo
    } else if v > hi {
        hi
    } else {
        v
    }
}

/// A sample value limited to `0..=255`.
pub open spec fn clip8_spec(v: int) -> u8 {
    clamp_int(v, 0, 255) as u8
}

/// Clip a sample to `0..=255`.
pub fn clip8(v: i32) -> (r: u8)
    ensures
        r == clip8_spec(v as int),
{
    if v < 0 {
        0
    } else if v > 255 {
        255
    } else {
        v as u8
    }
}

/// The absolute value of `v`.
pub fn abs_i32(v: i32) -> (r: i32)
    requires
        v > i32::MIN,
    ensures
        r == abs_int(v as int),
{
    if v < 0 {
        -v
    } else {
        v
    }
}

/// The absolute value of an integer.
pub open spec fn abs_int(v: int) -> int {
    if v < 0 {
        -v
    } else {
        v
    }
}

} // verus!
