//! Forward transforms: the 4x4 DCT of a residual block and the Walsh-Hadamard
//! transform of the sixteen luma DC coefficients.

use vstd::prelude::*;

use crate::arith::group_shr;

verus! {

broadcast use group_shr;

/// Horizontal pass of the forward DCT: output `k` of a row `d0..d3`.
pub open spec fn fdct_row(d0: int, d1: int, d2: int, d3: int, k: int) -> int {
    let a0 = d0 + d3;
    let a1 = d1 + d2;
    let a2 = d1 - d2;
    let a3 = d0 - d3;
    if k == 0 {
        (a0 + a1) * 8
    } else if k == 1 {
        (a2 * 2217 + a3 * 5352 + 1812) / 512
    } else if k == 2 {
        (a0 - a1) * 8
    } else {
        (a3 * 2217 - a2 * 5352 + 937) / 512
    }
}

/// Vertical pass of the forward DCT: output `k` of a column `t0..t3`.
pub open spec fn fdct_col(t0: int, t1: int, t2: int, t3: int, k: int) -> int {
    let a0 = t0 + t3;
    let a1 = t1 + t2;
    let a2 = t1 - t2;
    let a3 = t0 - t3;
    if k == 0 {
        (a0 + a1 + 7) / 16
    } else if k == 1 {
        (a2 * 2217 + a3 * 5352 + 12000) / 65536 + (if a3 != 0 {
            1int
        } else {
            0int
        })
    } else if k == 2 {
        (a0 - a1 + 7) / 16
    } else {
        (a3 * 2217 - a2 * 5352 + 51000) / 65536
    }
}

/// The row pass at column `x`, row `y` of block `d`.
pub open spec fn fdct_tmp(d: Seq<i16>, x: int, y: int) -> int {
    fdct_row(d[4 * y] as int, d[4 * y + 1] as int, d[4 * y + 2] as int, d[4 * y + 3] as int, x)
}

/// The coefficient at column `x`, row `y`, before narrowing.
#[verifier::opaque]
pub open spec fn fdct_at(d: Seq<i16>, x: int, y: int) -> int {
    fdct_col(fdct_tmp(d, x, 0), fdct_tmp(d, x, 1), fdct_tmp(d, x, 2), fdct_tmp(d, x, 3), y)
}

/// The forward DCT of a block.
pub open spec fn fdct_spec(d: Seq<i16>) -> Seq<i16> {
    Seq::new(16, |i: int| fdct_at(d, i % 4, i / 4) as i16)
}

/// One four-point forward Walsh-Hadamard butterfly.
pub open spec fn fwht4(i0: int, i1: int, i2: int, i3: int, k: int) -> int {
    let a0 = i0 + i2;
    let a1 = i1 + i3;
    let a2 = i1 - i3;
    let a3 = i0 - i2;
    if k == 0 {
        a0 + a1
    } else if k == 1 {
        a3 + a2
    } else if k == 2 {
        a3 - a2
    } else {
        a0 - a1
    }
}

/// The row pass at column `x`, row `y`.
pub open spec fn fwht_tmp(d: Seq<i16>, x: int, y: int) -> int {
    fwht4(d[4 * y] as int, d[4 * y + 1] as int, d[4 * y + 2] as int, d[4 * y + 3] as int, x)
}

/// The coefficient at column `x`, row `y`, before narrowing.
#[verifier::opaque]
pub open spec fn fwht_at(d: Seq<i16>, x: int, y: int) -> int {
    fwht4(fwht_tmp(d, x, 0), fwht_tmp(d, x, 1), fwht_tmp(d, x, 2), fwht_tmp(d, x, 3), y) / 2
}

/// The forward Walsh-Hadamard transform of sixteen DC coefficients.
pub open spec fn fwht_spec(d: Seq<i16>) -> Seq<i16> {
    Seq::new(16, |i: int| fwht_at(d, i % 4, i / 4) as i16)
}

fn fdct_row_exec(d0: i16, d1: i16, d2: i16, d3: i16) -> (r: [i64; 4])
    ensures
        forall|k: int| 0 <= k < 4 ==> #[trigger] r@[k] == fdct_row(d0 as int, d1 as int, d2 as int, d3 as int, k),
        forall|k: int| 0 <= k < 4 ==> -2000000 <= #[trigger] r@[k] <= 2000000,
{
    let a0: i64 = d0 as i64 + d3 as i64;
    let a1: i64 = d1 as i64 + d2 as i64;
    let a2: i64 = d1 as i64 - d2 as i64;
    let a3: i64 = d0 as i64 - d3 as i64;
    [
        (a0 + a1) * 8,
        (a2 * 2217 + a3 * 5352 + 1812) >> 9,
        (a0 - a1) * 8,
        (a3 * 2217 - a2 * 5352 + 937) >> 9,
    ]
}

fn fdct_col_exec(t0: i64, t1: i64, t2: i64, t3: i64) -> (r: [i64; 4])
    requires
        -2000000 <= t0 <= 2000000,
        -2000000 <= t1 <= 2000000,
        -2000000 <= t2 <= 2000000,
        -2000000 <= t3 <= 2000000,
    ensures
        forall|k: int| 0 <= k < 4 ==> #[trigger] r@[k] == fdct_col(t0 as int, t1 as int, t2 as int, t3 as int, k),
{
    let a0: i64 = t0 + t3;
    let a1: i64 = t1 + t2;
    let a2: i64 = t1 - t2;
    let a3: i64 = t0 - t3;
    let round: i64 = if a3 != 0 {
        1
    } else {
        0
    };
    [
        (a0 + a1 + 7) >> 4,
        ((a2 * 2217 + a3 * 5352 + 12000) >> 16) + round,
        (a0 - a1 + 7) >> 4,
        (a3 * 2217 - a2 * 5352 + 51000) >> 16,
    ]
}

/// Column `x` of the transform, from the transformed rows.
fn fdct_column(
    t0: &[i64; 4],
    t1: &[i64; 4],
    t2: &[i64; 4],
    t3: &[i64; 4],
    x: usize,
    Ghost(d): Ghost<Seq<i16>>,
) -> (r: [i16; 4])
    requires
        x < 4,
        t0@[x as int] == fdct_tmp(d, x as int, 0),
        t1@[x as int] == fdct_tmp(d, x as int, 1),
        t2@[x as int] == fdct_tmp(d, x as int, 2),
        t3@[x as int] == fdct_tmp(d, x as int, 3),
        -2000000 <= t0@[x as int] <= 2000000,
        -2000000 <= t1@[x as int] <= 2000000,
        -2000000 <= t2@[x as int] <= 2000000,
        -2000000 <= t3@[x as int] <= 2000000,
    ensures
        forall|k: int| 0 <= k < 4 ==> #[trigger] r@[k] == fdct_at(d, x as int, k) as i16,
{
    let c: [i64; 4] = fdct_col_exec(t0[x], t1[x], t2[x], t3[x]);
    proof {
        reveal(fdct_at);
        assert(c@[0] == fdct_at(d, x as int, 0));
        assert(c@[1] == fdct_at(d, x as int, 1));
        assert(c@[2] == fdct_at(d, x as int, 2));
        assert(c@[3] == fdct_at(d, x as int, 3));
    }
    [c[0] as i16, c[1] as i16, c[2] as i16, c[3] as i16]
}

/// Forward DCT of a 4x4 residual block.
pub fn fdct4x4(d: [i16; 16]) -> (r: [i16; 16])
    ensures
        r@ == fdct_spec(d@),
{
    let t0: [i64; 4] = fdct_row_exec(d[0], d[1], d[2], d[3]);
    let t1: [i64; 4] = fdct_row_exec(d[4], d[5], d[6], d[7]);
    let t2: [i64; 4] = fdct_row_exec(d[8], d[9], d[10], d[11]);
    let t3: [i64; 4] = fdct_row_exec(d[12], d[13], d[14], d[15]);
    let a: [i16; 4] = fdct_column(&t0, &t1, &t2, &t3, 0, Ghost(d@));
    let b: [i16; 4] = fdct_column(&t0, &t1, &t2, &t3, 1, Ghost(d@));
    let c: [i16; 4] = fdct_column(&t0, &t1, &t2, &t3, 2, Ghost(d@));
    let e: [i16; 4] = fdct_column(&t0, &t1, &t2, &t3, 3, Ghost(d@));
    let r: [i16; 16] = [
        a[0],
        b[0],
        c[0],
        e[0],
        a[1],
        b[1],
        c[1],
        e[1],
        a[2],
        b[2],
        c[2],
        e[2],
        a[3],
        b[3],
        c[3],
        e[3],
    ];
    assert(r@ =~= fdct_spec(d@));
    r
}

fn fwht4_exec(i0: i64, i1: i64, i2: i64, i3: i64) -> (r: [i64; 4])
    requires
        -2000000 <= i0 <= 2000000,
        -2000000 <= i1 <= 2000000,
        -2000000 <= i2 <= 2000000,
        -2000000 <= i3 <= 2000000,
    ensures
        forall|k: int| 0 <= k < 4 ==> #[trigger] r@[k] == fwht4(i0 as int, i1 as int, i2 as int, i3 as int, k),
        forall|k: int| 0 <= k < 4 ==> -8000000 <= #[trigger] r@[k] <= 8000000,
        (-32768 <= i0 < 32768 && -32768 <= i1 < 32768 && -32768 <= i2 < 32768 && -32768 <= i3 < 32768)
            ==> forall|k: int| 0 <= k < 4 ==> -2000000 <= #[trigger] r@[k] <= 2000000,
{
    let a0: i64 = i0 + i2;
    let a1: i64 = i1 + i3;
    let a2: i64 = i1 - i3;
    let a3: i64 = i0 - i2;
    [a0 + a1, a3 + a2, a3 - a2, a0 - a1]
}

/// Forward Walsh-Hadamard transform of the sixteen luma DC coefficients.
pub fn fwht(d: [i16; 16]) -> (r: [i16; 16])
    ensures
        r@ == fwht_spec(d@),
{
    let t0: [i64; 4] = fwht4_exec(d[0] as i64, d[1] as i64, d[2] as i64, d[3] as i64);
    let t1: [i64; 4] = fwht4_exec(d[4] as i64, d[5] as i64, d[6] as i64, d[7] as i64);
    let t2: [i64; 4] = fwht4_exec(d[8] as i64, d[9] as i64, d[10] as i64, d[11] as i64);
    let t3: [i64; 4] = fwht4_exec(d[12] as i64, d[13] as i64, d[14] as i64, d[15] as i64);
    let mut r: [i16; 16] = [0i16; 16];
    let mut x: usize = 0;
    while x < 4
        invariant
            x <= 4,
            forall|k: int| 0 <= k < 4 ==> #[trigger] t0@[k] == fwht_tmp(d@, k, 0),
            forall|k: int| 0 <= k < 4 ==> #[trigger] t1@[k] == fwht_tmp(d@, k, 1),
            forall|k: int| 0 <= k < 4 ==> #[trigger] t2@[k] == fwht_tmp(d@, k, 2),
            forall|k: int| 0 <= k < 4 ==> #[trigger] t3@[k] == fwht_tmp(d@, k, 3),
            forall|k: int| 0 <= k < 4 ==> -2000000 <= #[trigger] t0@[k] <= 2000000,
            forall|k: int| 0 <= k < 4 ==> -2000000 <= #[trigger] t1@[k] <= 2000000,
            forall|k: int| 0 <= k < 4 ==> -2000000 <= #[trigger] t2@[k] <= 2000000,
            forall|k: int| 0 <= k < 4 ==> -2000000 <= #[trigger] t3@[k] <= 2000000,
            forall|i: int|
                0 <= i < 16 && i % 4 < x ==> #[trigger] r@[i] == fwht_at(d@, i % 4, i / 4) as i16,
        decreases 4 - x,
    {
        let c: [i64; 4] = fwht4_exec(t0[x], t1[x], t2[x], t3[x]);
        proof {
            reveal(fwht_at);
            assert(c@[0] / 2 == fwht_at(d@, x as int, 0));
            assert(c@[1] / 2 == fwht_at(d@, x as int, 1));
            assert(c@[2] / 2 == fwht_at(d@, x as int, 2));
            assert(c@[3] / 2 == fwht_at(d@, x as int, 3));
        }
        r[x] = (c[0] >> 1) as i16;
        r[4 + x] = (c[1] >> 1) as i16;
        r[8 + x] = (c[2] >> 1) as i16;
        r[12 + x] = (c[3] >> 1) as i16;
        x = x + 1;
    }
    assert(r@ =~= fwht_spec(d@));
    r
}

} // verus!
