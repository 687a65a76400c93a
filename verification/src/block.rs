//! Square blocks of samples inside row-major planes.

use vstd::arithmetic::div_mod::{lemma_fundamental_div_mod, lemma_fundamental_div_mod_converse};
use vstd::prelude::*;

verus! {

/// Whether plane index `i` lies in the `n`-by-`n` block whose corner is `off`.
pub open spec fn in_square(i: int, off: int, stride: int, n: int) -> bool {
    i >= off && (i - off) / stride < n && (i - off) % stride < n
}

/// `plane` with the `n`-by-`n` block at `off` replaced by the samples `b` (row-major).
pub open spec fn blit(plane: Seq<u8>, off: int, stride: int, n: int, b: Seq<u8>) -> Seq<u8> {
    Seq::new(
        plane.len(),
        |i: int|
            if in_square(i, off, stride, n) {
                b[((i - off) / stride) * n + (i - off) % stride]
            } else {
                plane[i]
            },
    )
}

/// The samples of the 4-by-4 block at `off`, row-major.
pub open spec fn square4(plane: Seq<u8>, off: int, stride: int) -> Seq<u8> {
    seq![
        plane[off],
        plane[off + 1],
        plane[off + 2],
        plane[off + 3],
        plane[off + stride],
        plane[off + stride + 1],
        plane[off + stride + 2],
        plane[off + stride + 3],
        plane[off + 2 * stride],
        plane[off + 2 * stride + 1],
        plane[off + 2 * stride + 2],
        plane[off + 2 * stride + 3],
        plane[off + 3 * stride],
        plane[off + 3 * stride + 1],
        plane[off + 3 * stride + 2],
        plane[off + 3 * stride + 3],
    ]
}

/// Whether an `n`-by-`n` block at `off` fits in a plane of `len` samples.
pub open spec fn square_fits(len: int, off: int, stride: int, n: int) -> bool {
    &&& 1 <= n <= stride
    &&& 0 <= off
    &&& off + (n - 1) * stride + n <= len
}

/// The row and column of a sample inside a block.
pub proof fn lemma_block_coords(off: int, stride: int, x: int, y: int)
    requires
        0 <= x < stride,
    ensures
        (off + y * stride + x - off) / stride == y,
        (off + y * stride + x - off) % stride == x,
{
    assert(off + y * stride + x - off == y * stride + x);
    assert(y * stride == stride * y) by (nonlinear_arith);
    lemma_fundamental_div_mod_converse(off + y * stride + x - off, stride, y, x);
}

/// Every sample of a fitting block is inside the plane.
pub proof fn lemma_square_index(len: int, off: int, stride: int, n: int, x: int, y: int)
    requires
        square_fits(len, off, stride, n),
        0 <= x < n,
        0 <= y < n,
    ensures
        0 <= y * stride <= (n - 1) * stride,
        off <= off + y * stride + x < len,
{
    assert(0 <= y * stride <= (n - 1) * stride) by (nonlinear_arith)
        requires
            0 <= y <= n - 1,
            stride >= 1,
    ;
}

/// A blitted block reads back at its coordinates.
pub proof fn lemma_blit_at(plane: Seq<u8>, off: int, stride: int, n: int, b: Seq<u8>, x: int, y: int)
    requires
        square_fits(plane.len() as int, off, stride, n),
        0 <= x < n,
        0 <= y < n,
    ensures
        blit(plane, off, stride, n, b)[off + y * stride + x] == b[y * n + x],
{
    lemma_square_index(plane.len() as int, off, stride, n, x, y);
    lemma_block_coords(off, stride, x, y);
}

/// The samples of the `n`-by-`n` block at `off`, row-major.
pub open spec fn square(plane: Seq<u8>, off: int, stride: int, n: int) -> Seq<u8> {
    Seq::new((n * n) as nat, |i: int| plane[off + (i / n) * stride + i % n])
}

/// The offset of 4-by-4 sub-block `k` (raster order) of the `n`-by-`n` block at `off`.
pub open spec fn sub_off(off: int, stride: int, n: int, k: int) -> int {
    off + (k % (n / 4)) * 4 + (k / (n / 4)) * 4 * stride
}

/// Which 4-by-4 sub-block of an `n`-by-`n` block sample `i` belongs to.
pub open spec fn sub_index(n: int, i: int) -> int {
    ((i / n) / 4) * (n / 4) + (i % n) / 4
}

/// The position of sample `i` inside its 4-by-4 sub-block.
pub open spec fn sub_pos(n: int, i: int) -> int {
    ((i / n) % 4) * 4 + (i % n) % 4
}

/// The samples of sub-block `k`.
pub open spec fn sub_block(b: Seq<u8>, n: int, k: int) -> Seq<u8> {
    Seq::new(
        16,
        |i: int| b[((k / (n / 4)) * 4 + i / 4) * n + (k % (n / 4)) * 4 + i % 4],
    )
}

/// `b` with sub-block `k` replaced by `d`.
pub open spec fn with_sub(b: Seq<u8>, n: int, k: int, d: Seq<u8>) -> Seq<u8> {
    Seq::new(
        (n * n) as nat,
        |i: int|
            if sub_index(n, i) == k {
                d[sub_pos(n, i)]
            } else {
                b[i]
            },
    )
}

/// Whether a block size is one that splits into 4-by-4 sub-blocks.
pub open spec fn splits(n: int) -> bool {
    n == 8 || n == 16
}

/// The row and column of plane index `i` relative to `off`.
proof fn lemma_relative(i: int, off: int, stride: int) -> (r: (int, int))
    requires
        i >= off,
        stride >= 1,
    ensures
        r.0 == (i - off) / stride,
        r.1 == (i - off) % stride,
        i == off + r.0 * stride + r.1,
        0 <= r.0,
        0 <= r.1 < stride,
{
    lemma_fundamental_div_mod(i - off, stride);
    let y = (i - off) / stride;
    let x = (i - off) % stride;
    assert(y >= 0) by (nonlinear_arith)
        requires
            i - off >= 0,
            stride >= 1,
            y == (i - off) / stride,
    ;
    assert(stride * y == y * stride) by (nonlinear_arith);
    (y, x)
}

/// Membership in a block, by row and column relative to another corner in the same
/// columns.
pub proof fn lemma_in_square_at(off: int, stride: int, x0: int, y0: int, n: int, x: int, y: int)
    requires
        stride >= 1,
        n >= 1,
        0 <= x0,
        x0 + n <= stride,
        0 <= x < stride,
    ensures
        in_square(off + y * stride + x, off + y0 * stride + x0, stride, n) <==> (y0 <= y < y0 + n && x0
            <= x < x0 + n),
        (y0 <= y < y0 + n && x0 <= x < x0 + n) ==> {
            let i = off + y * stride + x;
            let o = off + y0 * stride + x0;
            (i - o) / stride == y - y0 && (i - o) % stride == x - x0
        },
{
    let i = off + y * stride + x;
    let o = off + y0 * stride + x0;
    let dy = y - y0;
    let dx = x - x0;
    assert(i - o == dy * stride + dx) by (nonlinear_arith)
        requires
            i == off + y * stride + x,
            o == off + y0 * stride + x0,
            dy == y - y0,
            dx == x - x0,
    ;
    if 0 <= dx {
        lemma_fundamental_div_mod_converse(i - o, stride, dy, dx);
        if i < o {
            assert(dy < 0) by (nonlinear_arith)
                requires
                    dy * stride + dx < 0,
                    dx >= 0,
                    stride >= 1,
            ;
        } else {
            assert(dy >= 0) by (nonlinear_arith)
                requires
                    dy * stride + dx >= 0,
                    dx < stride,
                    stride >= 1,
            ;
        }
    } else {
        assert((dy - 1) * stride + (dx + stride) == dy * stride + dx) by (nonlinear_arith);
        lemma_fundamental_div_mod_converse(i - o, stride, dy - 1, dx + stride);
    }
}

/// A block's samples by row and column.
pub proof fn lemma_square_at(plane: Seq<u8>, off: int, stride: int, n: int, x: int, y: int)
    requires
        0 <= x < n,
        0 <= y < n,
    ensures
        0 <= y * n + x < n * n,
        square(plane, off, stride, n)[y * n + x] == plane[off + y * stride + x],
{
    lemma_fundamental_div_mod_converse(y * n + x, n, y, x);
    assert(0 <= y * n + x < n * n) by (nonlinear_arith)
        requires
            0 <= x < n,
            0 <= y < n,
    ;
}

/// The row and column of sample `i` of a block.
pub proof fn lemma_block_index(n: int, i: int)
    requires
        1 <= n,
        0 <= i < n * n,
    ensures
        0 <= i / n < n,
        0 <= i % n < n,
        i == (i / n) * n + i % n,
{
    lemma_fundamental_div_mod(i, n);
    assert(n * (i / n) == (i / n) * n) by (nonlinear_arith);
    assert(0 <= i / n < n) by (nonlinear_arith)
        requires
            0 <= i < n * n,
            n >= 1,
            i == (i / n) * n + i % n,
            0 <= i % n < n,
    ;
}

/// A blitted block reads back.
pub proof fn lemma_square_blit(plane: Seq<u8>, off: int, stride: int, n: int, b: Seq<u8>)
    requires
        square_fits(plane.len() as int, off, stride, n),
        b.len() == n * n,
    ensures
        square(blit(plane, off, stride, n, b), off, stride, n) == b,
{
    assert(n * n >= 1) by (nonlinear_arith)
        requires
            n >= 1,
    ;
    let r = square(blit(plane, off, stride, n, b), off, stride, n);
    assert forall|i: int| 0 <= i < n * n implies r[i] == b[i] by {
        lemma_block_index(n, i);
        lemma_blit_at(plane, off, stride, n, b, i % n, i / n);
    }
    assert(r =~= b);
}

/// Of two blits at one place the second stays.
pub proof fn lemma_blit_blit(plane: Seq<u8>, off: int, stride: int, n: int, a: Seq<u8>, b: Seq<u8>)
    ensures
        blit(blit(plane, off, stride, n, a), off, stride, n, b) == blit(plane, off, stride, n, b),
{
    assert(blit(blit(plane, off, stride, n, a), off, stride, n, b) =~= blit(
        plane,
        off,
        stride,
        n,
        b,
    ));
}

/// Writing a block back changes nothing.
pub proof fn lemma_blit_square(plane: Seq<u8>, off: int, stride: int, n: int)
    requires
        1 <= n <= stride,
    ensures
        blit(plane, off, stride, n, square(plane, off, stride, n)) == plane,
{
    let b = square(plane, off, stride, n);
    let r = blit(plane, off, stride, n, b);
    assert forall|i: int| 0 <= i < plane.len() implies r[i] == plane[i] by {
        if in_square(i, off, stride, n) {
            let (y, x) = lemma_relative(i, off, stride);
            lemma_square_at(plane, off, stride, n, x, y);
        }
    }
    assert(r =~= plane);
}

/// The grid of sub-blocks in numbers.
proof fn lemma_grid(n: int, k: int)
    requires
        splits(n),
    ensures
        n == 8 ==> n / 4 == 2 && (n / 4) * (n / 4) == 4 && n * n == 64,
        n == 16 ==> n / 4 == 4 && (n / 4) * (n / 4) == 16 && n * n == 256,
        n == 8 ==> k / (n / 4) == k / 2 && k % (n / 4) == k % 2,
        n == 16 ==> k / (n / 4) == k / 4 && k % (n / 4) == k % 4,
{
    assert(8 * 8 == 64 && 16 * 16 == 256 && 2 * 2 == 4 && 4 * 4 == 16);
}

/// The sub-block offset by row and column.
pub proof fn lemma_sub_off(off: int, stride: int, n: int, k: int)
    requires
        splits(n),
        0 <= k < (n / 4) * (n / 4),
    ensures
        ({
            let bx = (k % (n / 4)) * 4;
            let by = (k / (n / 4)) * 4;
            &&& 0 <= bx <= n - 4
            &&& 0 <= by <= n - 4
            &&& sub_off(off, stride, n, k) == off + by * stride + bx
        }),
{
    lemma_grid(n, k);
}

/// A sub-block fits where its block fits.
pub proof fn lemma_sub_fits(len: int, off: int, stride: int, n: int, k: int)
    requires
        splits(n),
        0 <= k < (n / 4) * (n / 4),
        square_fits(len, off, stride, n),
    ensures
        square_fits(len, sub_off(off, stride, n, k), stride, 4),
        sub_off(off, stride, n, k) >= off,
{
    lemma_sub_off(off, stride, n, k);
    let bx = (k % (n / 4)) * 4;
    let by = (k / (n / 4)) * 4;
    assert(0 <= by * stride && by * stride + 3 * stride <= (n - 1) * stride) by (nonlinear_arith)
        requires
            0 <= by <= n - 4,
            stride >= 1,
    ;
}

/// The samples of a sub-block, read from the plane or from the block.
pub proof fn lemma_square4_sub(plane: Seq<u8>, off: int, stride: int, n: int, k: int)
    requires
        splits(n),
        0 <= k < (n / 4) * (n / 4),
    ensures
        square4(plane, sub_off(off, stride, n, k), stride) == sub_block(
            square(plane, off, stride, n),
            n,
            k,
        ),
{
    lemma_sub_off(off, stride, n, k);
    let bx = (k % (n / 4)) * 4;
    let by = (k / (n / 4)) * 4;
    let a = square4(plane, sub_off(off, stride, n, k), stride);
    let b = sub_block(square(plane, off, stride, n), n, k);
    assert forall|i: int| 0 <= i < 16 implies a[i] == b[i] by {
        let x = i % 4;
        let y = i / 4;
        lemma_square_at(plane, off, stride, n, bx + x, by + y);
        assert((by + y) * stride == by * stride + y * stride) by (nonlinear_arith);
        assert(y == 0 || y == 1 || y == 2 || y == 3);
        assert(0 * stride == 0 && 1 * stride == stride);
    }
    assert(a =~= b);
}

/// Blitting a sub-block onto a blitted block is blitting the block with the sub-block
/// replaced.
pub proof fn lemma_blit_sub(
    plane: Seq<u8>,
    off: int,
    stride: int,
    n: int,
    b: Seq<u8>,
    k: int,
    d: Seq<u8>,
)
    requires
        splits(n),
        n <= stride,
        0 <= off,
        0 <= k < (n / 4) * (n / 4),
    ensures
        blit(blit(plane, off, stride, n, b), sub_off(off, stride, n, k), stride, 4, d) == blit(
            plane,
            off,
            stride,
            n,
            with_sub(b, n, k, d),
        ),
{
    lemma_sub_off(off, stride, n, k);
    let so = sub_off(off, stride, n, k);
    let bx = (k % (n / 4)) * 4;
    let by = (k / (n / 4)) * 4;
    assert(by * stride >= 0) by (nonlinear_arith)
        requires
            by >= 0,
            stride >= 1,
    ;
    let w = with_sub(b, n, k, d);
    let l = blit(blit(plane, off, stride, n, b), so, stride, 4, d);
    let r = blit(plane, off, stride, n, w);
    assert forall|i: int| 0 <= i < plane.len() implies l[i] == r[i] by {
        if i >= off {
            let (y, x) = lemma_relative(i, off, stride);
            lemma_in_square_at(off, stride, bx, by, 4, x, y);
            if x < n && y < n {
                lemma_sub_member(n, k, x, y);
                lemma_fundamental_div_mod_converse(y * n + x, n, y, x);
                assert(0 <= y * n + x < n * n) by (nonlinear_arith)
                    requires
                        0 <= x < n,
                        0 <= y < n,
                ;
            }
        }
    }
    assert(l =~= r);
}

/// Which samples of a block lie in sub-block `k`.
proof fn lemma_sub_member(n: int, k: int, x: int, y: int)
    requires
        splits(n),
        0 <= k < (n / 4) * (n / 4),
        0 <= x < n,
        0 <= y < n,
    ensures
        ({
            let bx = (k % (n / 4)) * 4;
            let by = (k / (n / 4)) * 4;
            let i = y * n + x;
            &&& i / n == y
            &&& i % n == x
            &&& sub_index(n, i) == k <==> (by <= y < by + 4 && bx <= x < bx + 4)
            &&& sub_index(n, i) == k ==> sub_pos(n, i) == (y - by) * 4 + (x - bx)
        }),
{
    let i = y * n + x;
    lemma_fundamental_div_mod_converse(i, n, y, x);
    lemma_grid(n, k);
    if n == 8 {
        assert(sub_index(8, i) == (y / 4) * 2 + x / 4);
    } else {
        assert(sub_index(16, i) == (y / 4) * 4 + x / 4);
    }
}

/// Replacing a sub-block, by sub-block.
pub proof fn lemma_with_sub(b: Seq<u8>, n: int, k: int, d: Seq<u8>, j: int)
    requires
        splits(n),
        0 <= k < (n / 4) * (n / 4),
        0 <= j < (n / 4) * (n / 4),
        d.len() == 16,
    ensures
        sub_block(with_sub(b, n, k, d), n, j) == (if j == k {
            d
        } else {
            sub_block(b, n, j)
        }),
{
    let l = sub_block(with_sub(b, n, k, d), n, j);
    let r = if j == k {
        d
    } else {
        sub_block(b, n, j)
    };
    let bx = (j % (n / 4)) * 4;
    let by = (j / (n / 4)) * 4;
    lemma_sub_off(0, n, n, j);
    assert forall|i: int| 0 <= i < 16 implies l[i] == r[i] by {
        let x = bx + i % 4;
        let y = by + i / 4;
        lemma_sub_member(n, k, x, y);
        lemma_sub_member(n, j, x, y);
        assert(0 <= y * n + x < n * n) by (nonlinear_arith)
            requires
                0 <= x < n,
                0 <= y < n,
        ;
    }
    assert(l =~= r);
}

/// A sample of a block, by sub-block.
pub proof fn lemma_sub_read(b: Seq<u8>, n: int, i: int)
    requires
        splits(n),
        0 <= i < n * n,
    ensures
        0 <= sub_index(n, i) < (n / 4) * (n / 4),
        0 <= sub_pos(n, i) < 16,
        sub_block(b, n, sub_index(n, i))[sub_pos(n, i)] == b[i],
{
    lemma_block_index(n, i);
    let x = i % n;
    let y = i / n;
    let k = sub_index(n, i);
    lemma_grid(n, k);
    if n == 8 {
        assert(k == (y / 4) * 2 + x / 4);
        assert(k / 2 == y / 4 && k % 2 == x / 4);
    } else {
        assert(k == (y / 4) * 4 + x / 4);
        assert(k / 4 == y / 4 && k % 4 == x / 4);
    }
    let p = sub_pos(n, i);
    assert(p / 4 == y % 4 && p % 4 == x % 4);
}

/// Write the first `n * n` samples of `b` as the block at `off`.
pub fn put_square(plane: &mut [u8], off: usize, stride: usize, n: usize, b: &[u8])
    requires
        square_fits(old(plane)@.len() as int, off as int, stride as int, n as int),
        n * n <= b@.len(),
    ensures
        final(plane)@ == blit(old(plane)@, off as int, stride as int, n as int, b@),
{
    let ghost p0 = plane@;
    let ghost o = off as int;
    let ghost s = stride as int;
    let len: usize = plane.len();
    let blen: usize = b.len();
    let mut y: usize = 0;
    let mut base: usize = off;
    let mut src: usize = 0;
    proof {
        assert forall|i: int| 0 <= i < p0.len() && in_square(i, o, s, n as int) implies (i - o) / s
            >= 0 by {
            lemma_fundamental_div_mod(i - o, s);
            assert((i - o) / s >= 0) by (nonlinear_arith)
                requires
                    i - o >= 0,
                    s > 0,
            ;
        }
    }
    while y < n
        invariant
            y <= n,
            square_fits(p0.len() as int, o, s, n as int),
            o == off,
            s == stride,
            n * n <= b@.len(),
            b@.len() == blen,
            p0.len() == len,
            plane@.len() == p0.len(),
            base == o + y * s || y == n,
            src == y * n,
            forall|i: int|
                0 <= i < p0.len() && in_square(i, o, s, n as int) ==> (i - o) / s >= 0,
            forall|i: int|
                0 <= i < p0.len() ==> #[trigger] plane@[i] == (if in_square(i, o, s, n as int) && (i
                    - o) / s < y {
                    b@[((i - o) / s) * n + (i - o) % s]
                } else {
                    p0[i]
                }),
        decreases n - y,
    {
        let mut x: usize = 0;
        proof {
            lemma_square_index(p0.len() as int, o, s, n as int, n - 1, y as int);
            assert(y * n + n <= n * n) by (nonlinear_arith)
                requires
                    y < n,
            ;
        }
        while x < n
            invariant
                x <= n,
                y < n,
                square_fits(p0.len() as int, o, s, n as int),
                o == off,
                s == stride,
                n * n <= b@.len(),
                b@.len() == blen,
                p0.len() == len,
                y * n + n <= n * n,
                plane@.len() == p0.len(),
                base == o + y * s,
                src == y * n,
                base + n <= p0.len(),
                forall|i: int|
                    0 <= i < p0.len() ==> #[trigger] plane@[i] == (if in_square(i, o, s, n as int)
                        && ((i - o) / s < y || ((i - o) / s == y && (i - o) % s < x)) {
                        b@[((i - o) / s) * n + (i - o) % s]
                    } else {
                        p0[i]
                    }),
            decreases n - x,
        {
            let ghost before = plane@;
            let idx: usize = base + x;
            plane[idx] = b[src + x];
            proof {
                lemma_block_coords(o, s, x as int, y as int);
                assert forall|i: int| 0 <= i < p0.len() implies #[trigger] plane@[i] == (if in_square(
                    i,
                    o,
                    s,
                    n as int,
                ) && ((i - o) / s < y || ((i - o) / s == y && (i - o) % s < x + 1)) {
                    b@[((i - o) / s) * n + (i - o) % s]
                } else {
                    p0[i]
                }) by {
                    if i != idx {
                        assert(plane@[i] == before[i]);
                        if i >= o {
                            lemma_fundamental_div_mod(i - o, s);
                            if (i - o) / s == y && (i - o) % s == x {
                                assert(s * ((i - o) / s) == y * s) by (nonlinear_arith)
                                    requires
                                        (i - o) / s == y,
                                ;
                            }
                        }
                    }
                }
            }
            x = x + 1;
        }
        y = y + 1;
        src = src + n;
        proof {
            assert((y - 1) * n + n == y * n) by (nonlinear_arith);
            assert((y - 1) * s + s == y * s) by (nonlinear_arith);
            assert forall|i: int| 0 <= i < p0.len() implies #[trigger] plane@[i] == (if in_square(
                i,
                o,
                s,
                n as int,
            ) && (i - o) / s < y {
                b@[((i - o) / s) * n + (i - o) % s]
            } else {
                p0[i]
            }) by {}
        }
        if y < n {
            proof {
                lemma_square_index(p0.len() as int, o, s, n as int, 0, y as int);
            }
            base = base + stride;
        }
    }
    assert(plane@ =~= blit(p0, o, s, n as int, b@));
}

/// Read the 4-by-4 block at `off`.
pub fn get_square4(plane: &[u8], off: usize, stride: usize) -> (r: [u8; 16])
    requires
        square_fits(plane@.len() as int, off as int, stride as int, 4),
    ensures
        r@ == square4(plane@, off as int, stride as int),
{
    let len: usize = plane.len();
    assert(off + 3 * stride + 4 <= len);
    let a: usize = off + stride;
    let b: usize = a + stride;
    let c: usize = b + stride;
    let r: [u8; 16] = [
        plane[off],
        plane[off + 1],
        plane[off + 2],
        plane[off + 3],
        plane[a],
        plane[a + 1],
        plane[a + 2],
        plane[a + 3],
        plane[b],
        plane[b + 1],
        plane[b + 2],
        plane[b + 3],
        plane[c],
        plane[c + 1],
        plane[c + 2],
        plane[c + 3],
    ];
    assert(r@ =~= square4(plane@, off as int, stride as int));
    r
}

} // verus!
