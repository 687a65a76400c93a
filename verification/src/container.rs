//! The file around a frame: a RIFF container of form `WEBP` with one `VP8 ` chunk.

use vstd::prelude::*;

use crate::error::{Codec, Error, Result};

verus! {

/// The bytes before a frame.
pub const FILE_HEADER_LEN: usize = 20;

/// The four little-endian bytes of `n`, modulo `2^32`.
pub open spec fn le32(n: int) -> Seq<u8> {
    seq![
        (n % 256) as u8,
        ((n / 256) % 256) as u8,
        ((n / 65536) % 256) as u8,
        ((n / 16777216) % 256) as u8,
    ]
}

/// The number that four little-endian bytes stand for.
pub open spec fn le32_value(b: Seq<u8>, at: int) -> int {
    b[at] + 256 * b[at + 1] + 65536 * b[at + 2] + 16777216 * b[at + 3]
}

/// The form of a file: `RIFF`, and `WEBP` behind the size.
pub open spec fn riff() -> Seq<u8> {
    seq![0x52u8, 0x49u8, 0x46u8, 0x46u8]
}

/// The form type and the chunk name: `WEBPVP8 `.
pub open spec fn webp_vp8() -> Seq<u8> {
    seq![0x57u8, 0x45u8, 0x42u8, 0x50u8, 0x56u8, 0x50u8, 0x38u8, 0x20u8]
}

/// The padding behind a chunk of `n` bytes: chunks have even sizes.
pub open spec fn padding(n: int) -> Seq<u8> {
    if n % 2 == 1 {
        seq![0u8]
    } else {
        Seq::empty()
    }
}

/// The file of a frame.
pub open spec fn wrapped(payload: Seq<u8>) -> Seq<u8> {
    let n = payload.len() as int;
    riff() + le32(12 + n + n % 2) + webp_vp8() + le32(n) + payload + padding(n)
}

/// Whether a file starts like one that holds a frame.
pub open spec fn is_webp(file: Seq<u8>) -> bool {
    file.subrange(0, 4) == riff() && file.subrange(8, 16) == webp_vp8()
}

/// The frame of a file.
pub open spec fn unwrapped(file: Seq<u8>) -> Result<Seq<u8>> {
    if file.len() < FILE_HEADER_LEN {
        Err(Error::Truncated)
    } else if !is_webp(file) {
        Err(Error::InvalidBitstream { codec: Codec::Lossy })
    } else if file.len() - FILE_HEADER_LEN < le32_value(file, 16) {
        Err(Error::Truncated)
    } else {
        Ok(file.subrange(FILE_HEADER_LEN as int, FILE_HEADER_LEN + le32_value(file, 16)))
    }
}

fn push_le32(out: &mut Vec<u8>, n: u128)
    ensures
        final(out)@ == old(out)@ + le32(n as int),
{
    let ghost start = out@;
    out.push((n % 256) as u8);
    out.push(((n / 256) % 256) as u8);
    out.push(((n / 65536) % 256) as u8);
    out.push(((n / 16777216) % 256) as u8);
    assert(out@ =~= start + le32(n as int));
}

/// Put a frame into a file.
pub fn wrap(payload: &[u8]) -> (r: Vec<u8>)
    ensures
        r@ == wrapped(payload@),
{
    let len: usize = payload.len();
    let n: u128 = len as u128;
    let mut out: Vec<u8> = Vec::new();
    out.push(0x52);
    out.push(0x49);
    out.push(0x46);
    out.push(0x46);
    assert(out@ =~= riff());
    push_le32(&mut out, 12 + n + n % 2);
    let ghost start = out@;
    out.push(0x57);
    out.push(0x45);
    out.push(0x42);
    out.push(0x50);
    out.push(0x56);
    out.push(0x50);
    out.push(0x38);
    out.push(0x20);
    assert(out@ =~= start + webp_vp8());
    push_le32(&mut out, n);
    let ghost head = out@;
    let mut i: usize = 0;
    while i < len
        invariant
            i <= len,
            len == payload@.len(),
            out@ == head + payload@.take(i as int),
        decreases len - i,
    {
        out.push(payload[i]);
        i = i + 1;
        assert(out@ =~= head + payload@.take(i as int));
    }
    assert(payload@.take(len as int) =~= payload@);
    if len % 2 == 1 {
        out.push(0);
    }
    assert(out@ =~= wrapped(payload@));
    out
}

/// Whether a slice holds `want` at `at`.
fn holds_at(file: &[u8], at: usize, want: &[u8]) -> (r: bool)
    requires
        at + want@.len() <= file@.len(),
    ensures
        r == (file@.subrange(at as int, at + want@.len()) == want@),
{
    let n: usize = want.len();
    let len: usize = file.len();
    let mut i: usize = 0;
    while i < n
        invariant
            i <= n,
            n == want@.len(),
            len == file@.len(),
            at + n <= len,
            forall|j: int| 0 <= j < i ==> file@[at + j] == #[trigger] want@[j],
        decreases n - i,
    {
        if file[at + i] != want[i] {
            assert(file@.subrange(at as int, at + n)[i as int] != want@[i as int]);
            return false;
        }
        i = i + 1;
    }
    assert(file@.subrange(at as int, at + n) =~= want@);
    true
}

/// Take the frame out of a file.
///
/// # Errors
///
/// [`Error::Truncated`] if the file ends before its headers or its frame do, or
/// [`Error::InvalidBitstream`] if it does not start like one.
pub fn unwrap_file(file: &[u8]) -> (r: Result<&[u8]>)
    ensures
        match r {
            Ok(payload) => unwrapped(file@) == Ok::<Seq<u8>, Error>(payload@),
            Err(e) => unwrapped(file@) == Err::<Seq<u8>, Error>(e),
        },
{
    if file.len() < FILE_HEADER_LEN {
        return Err(Error::Truncated);
    }
    let riff_name: [u8; 4] = [0x52, 0x49, 0x46, 0x46];
    let form_name: [u8; 8] = [0x57, 0x45, 0x42, 0x50, 0x56, 0x50, 0x38, 0x20];
    assert(riff_name@ =~= riff());
    assert(form_name@ =~= webp_vp8());
    if !holds_at(file, 0, &riff_name) || !holds_at(file, 8, &form_name) {
        return Err(Error::InvalidBitstream { codec: Codec::Lossy });
    }
    let size: u64 = file[16] as u64 + 256 * file[17] as u64 + 65536 * file[18] as u64 + 16777216
        * file[19] as u64;
    if ((file.len() - FILE_HEADER_LEN) as u64) < size {
        return Err(Error::Truncated);
    }
    Ok(vstd::slice::slice_subrange(file, FILE_HEADER_LEN, FILE_HEADER_LEN + size as usize))
}

/// Taking a frame out of the file it was put into gives the frame back, if its size can
/// be written down.
pub proof fn unwrap_inverts_wrap(payload: Seq<u8>)
    requires
        payload.len() < 0x1_0000_0000,
    ensures
        unwrapped(wrapped(payload)) == Ok::<Seq<u8>, Error>(payload),
{
    let n = payload.len() as int;
    let f = wrapped(payload);
    assert(f.subrange(0, 4) =~= riff());
    assert(f.subrange(8, 16) =~= webp_vp8());
    assert(f[16] == le32(n)[0] && f[17] == le32(n)[1] && f[18] == le32(n)[2] && f[19] == le32(n)[3]);
    assert(n / 65536 == (n / 256) / 256);
    assert(n / 16777216 == (n / 65536) / 256);
    assert(le32_value(f, 16) == n);
    assert(f.subrange(20, 20 + n) =~= payload);
}

} // verus!
