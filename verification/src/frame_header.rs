//! The uncompressed VP8 frame header: a 3-byte tag, a 3-byte start code, and the
//! dimensions with their scale bits.

use vstd::prelude::*;

use crate::error::{Codec, Error, Result};

verus! {

/// Length of a key frame's uncompressed header.
pub const KEY_FRAME_HEADER_LEN: usize = 10;

/// The start code of a key frame.
pub const KEY_FRAME_START_CODE: [u8; 3] = [0x9d, 0x01, 0x2a];

/// The parsed uncompressed header of a VP8 key frame.
#[derive(Clone, Copy, PartialEq, Eq, Debug, Structural)]
pub struct FrameHeader {
    /// Whether this is a key frame; inter frames are rejected.
    pub key_frame: bool,
    /// Bitstream version, `0..=3`: the low two bits of the version field.
    pub version: u8,
    /// Whether the frame is meant to be displayed.
    pub show_frame: bool,
    /// Size in bytes of the control partition that follows.
    pub first_partition_size: u32,
    /// Frame width in pixels, `1..=16383`.
    pub width: u16,
    /// Frame height in pixels, `1..=16383`.
    pub height: u16,
    /// Horizontal upscale factor, `0..=3`.
    pub x_scale: u8,
    /// Vertical upscale factor, `0..=3`.
    pub y_scale: u8,
}

/// Whether the bytes hold the key-frame start code.
pub open spec fn has_start_code(b: Seq<u8>) -> bool {
    &&& b[3] == KEY_FRAME_START_CODE[0]
    &&& b[4] == KEY_FRAME_START_CODE[1]
    &&& b[5] == KEY_FRAME_START_CODE[2]
}

/// The header fields of ten bytes, whatever their values.
pub open spec fn header_fields(b: Seq<u8>) -> FrameHeader {
    FrameHeader {
        key_frame: b[0] % 2 == 0,
        version: ((b[0] / 2) % 4) as u8,
        show_frame: (b[0] / 16) % 2 == 1,
        first_partition_size: (b[0] as int / 32 + 8 * b[1] + 2048 * b[2]) as u32,
        width: ((b[6] + 256 * b[7]) % 16384) as u16,
        height: ((b[8] + 256 * b[9]) % 16384) as u16,
        x_scale: (b[7] / 64) as u8,
        y_scale: (b[9] / 64) as u8,
    }
}

/// Whether ten bytes are a valid key-frame header.
pub open spec fn is_key_frame_header(b: Seq<u8>) -> bool {
    let h = header_fields(b);
    &&& h.key_frame
    &&& has_start_code(b)
    &&& h.width != 0
    &&& h.height != 0
}

impl FrameHeader {
    /// Parse the 10-byte uncompressed header of a key frame from the front of
    /// `payload`.
    ///
    /// # Errors
    ///
    /// [`Error::Truncated`] if fewer than 10 bytes are present, or
    /// [`Error::InvalidBitstream`] for an inter frame, a wrong start code, or a zero
    /// width or height.
    pub fn parse_key_frame(payload: &[u8]) -> (r: Result<Self>)
        ensures
            match r {
                Ok(h) => {
                    &&& payload@.len() >= 10
                    &&& is_key_frame_header(payload@)
                    &&& h == header_fields(payload@)
                    &&& h.version <= 3
                },
                Err(Error::Truncated) => payload@.len() < 10,
                Err(Error::InvalidBitstream { codec }) => {
                    &&& codec == Codec::Lossy
                    &&& payload@.len() >= 10
                    &&& !is_key_frame_header(payload@)
                },
                Err(Error::InvalidDimensions) => false,
            },
    {
        if payload.len() < KEY_FRAME_HEADER_LEN {
            return Err(Error::Truncated);
        }
        let b0: u8 = payload[0];
        let key_frame: bool = b0 % 2 == 0;
        if !key_frame {
            return Err(Error::InvalidBitstream { codec: Codec::Lossy });
        }
        let version: u8 = (b0 / 2) % 4;
        let show_frame: bool = (b0 / 16) % 2 == 1;
        let first_partition_size: u32 = b0 as u32 / 32 + 8 * payload[1] as u32 + 2048
            * payload[2] as u32;
        if payload[3] != KEY_FRAME_START_CODE[0] || payload[4] != KEY_FRAME_START_CODE[1]
            || payload[5] != KEY_FRAME_START_CODE[2] {
            return Err(Error::InvalidBitstream { codec: Codec::Lossy });
        }
        let width: u16 = ((payload[6] as u32 + 256 * payload[7] as u32) % 16384) as u16;
        let height: u16 = ((payload[8] as u32 + 256 * payload[9] as u32) % 16384) as u16;
        let x_scale: u8 = payload[7] / 64;
        let y_scale: u8 = payload[9] / 64;
        if width == 0 || height == 0 {
            return Err(Error::InvalidBitstream { codec: Codec::Lossy });
        }
        Ok(
            FrameHeader {
                key_frame,
                version,
                show_frame,
                first_partition_size,
                width,
                height,
                x_scale,
                y_scale,
            },
        )
    }
}

} // verus!
