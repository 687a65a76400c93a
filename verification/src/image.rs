//! Pictures of packed pixels.

use vstd::prelude::*;

use crate::error::{Error, Result};

verus! {

/// The largest width or height of a picture.
pub const MAX_DIMENSION: u32 = 16383;

/// The size of a picture, both sides in `1..=16383`.
#[derive(Clone, Copy, PartialEq, Eq, Debug, Structural)]
pub struct Dimensions {
    /// Width in pixels.
    pub width: u32,
    /// Height in pixels.
    pub height: u32,
}

/// Whether a picture can have this size.
pub open spec fn dimensions_ok(width: int, height: int) -> bool {
    1 <= width <= MAX_DIMENSION && 1 <= height <= MAX_DIMENSION
}

impl Dimensions {
    /// A picture size.
    ///
    /// # Errors
    ///
    /// [`Error::InvalidDimensions`] if a side is zero or too large.
    pub fn new(width: u32, height: u32) -> (r: Result<Self>)
        ensures
            dimensions_ok(width as int, height as int) ==> r == Ok::<Self, Error>(
                (Dimensions { width, height }),
            ),
            !dimensions_ok(width as int, height as int) ==> r == Err::<Self, Error>(
                Error::InvalidDimensions,
            ),
    {
        if 1 <= width && width <= MAX_DIMENSION && 1 <= height && height <= MAX_DIMENSION {
            Ok(Dimensions { width, height })
        } else {
            Err(Error::InvalidDimensions)
        }
    }
}

/// How pixels are packed.
#[derive(Clone, Copy, PartialEq, Eq, Debug, Structural)]
pub enum PixelLayout {
    /// Red, green, blue, alpha; one byte each.
    Rgba8,
}

/// A picture.
#[derive(Debug)]
pub struct Image {
    /// Its size.
    pub dims: Dimensions,
    /// How its pixels are packed.
    pub layout: PixelLayout,
    /// Its pixels, row-major.
    pub bytes: Vec<u8>,
}

impl Image {
    /// A picture from its parts.
    pub fn from_parts(dims: Dimensions, layout: PixelLayout, bytes: Vec<u8>) -> (r: Self)
        ensures
            r.dims == dims,
            r.layout == layout,
            r.bytes@ == bytes@,
    {
        Image { dims, layout, bytes }
    }

    /// The size is one a picture can have, and every pixel is there.
    pub open spec fn wf(&self) -> bool {
        &&& dimensions_ok(self.dims.width as int, self.dims.height as int)
        &&& self.bytes@.len() == self.dims.width * self.dims.height * 4
    }

    /// Width in pixels.
    pub fn width(&self) -> (r: u32)
        ensures
            r == self.dims.width,
    {
        self.dims.width
    }

    /// Height in pixels.
    pub fn height(&self) -> (r: u32)
        ensures
            r == self.dims.height,
    {
        self.dims.height
    }

    /// How the pixels are packed.
    pub fn layout(&self) -> (r: PixelLayout)
        ensures
            r == self.layout,
    {
        self.layout
    }

    /// The packed pixels.
    pub fn as_bytes(&self) -> (r: &[u8])
        ensures
            r@ == self.bytes@,
    {
        self.bytes.as_slice()
    }
}

/// A pixel as one word: alpha, red, green, blue from the top byte down.
pub open spec fn argb(r: int, g: int, b: int, a: int) -> u32 {
    (a * 16777216 + r * 65536 + g * 256 + b) as u32
}

/// The words of packed pixels; a trailing part of a pixel is dropped.
pub open spec fn unpacked(bytes: Seq<u8>) -> Seq<u32> {
    Seq::new(
        bytes.len() / 4,
        |i: int|
            argb(
                bytes[4 * i] as int,
                bytes[4 * i + 1] as int,
                bytes[4 * i + 2] as int,
                bytes[4 * i + 3] as int,
            ),
    )
}

/// Unpack pixels into words: alpha, red, green, blue from the top byte down.
pub fn unpack_pixels(layout: PixelLayout, bytes: &[u8]) -> (r: Vec<u32>)
    ensures
        r@ == unpacked(bytes@),
{
    let len: usize = bytes.len();
    let n: usize = len / 4;
    let mut out: Vec<u32> = Vec::new();
    match layout {
        PixelLayout::Rgba8 => {
            let mut i: usize = 0;
            while i < n
                invariant
                    i <= n,
                    n == len / 4,
                    bytes@.len() == len,
                    out@ == unpacked(bytes@).take(i as int),
                decreases n - i,
            {
                let r: u32 = bytes[4 * i] as u32;
                let g: u32 = bytes[4 * i + 1] as u32;
                let b: u32 = bytes[4 * i + 2] as u32;
                let a: u32 = bytes[4 * i + 3] as u32;
                out.push(a * 16777216 + r * 65536 + g * 256 + b);
                i = i + 1;
                assert(out@ =~= unpacked(bytes@).take(i as int));
            }
        },
    }
    assert(out@ =~= unpacked(bytes@));
    out
}

} // verus!
