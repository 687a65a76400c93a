use webpkit::error::{Codec, Error};

use webpkit::frame_header::{FrameHeader, KEY_FRAME_START_CODE};

/// Assemble a key-frame header from explicit fields (no truncating casts).
fn header(tag: [u8; 3], width: u16, height: u16) -> [u8; 10] {
    let [wl, wh] = width.to_le_bytes();
    let [hl, hh] = height.to_le_bytes();
    [
        tag[0],
        tag[1],
        tag[2],
        KEY_FRAME_START_CODE[0],
        KEY_FRAME_START_CODE[1],
        KEY_FRAME_START_CODE[2],
        wl,
        wh,
        hl,
        hh,
    ]
}

#[test]
fn parses_a_minimal_key_frame() {
    // tag 0x10: key_frame=0, version=0, show_frame=1, first-partition size 0.
    let bytes = header([0x10, 0x00, 0x00], 16, 16);
    let h = FrameHeader::parse_key_frame(&bytes).unwrap();
    assert!(h.key_frame && h.show_frame);
    assert_eq!((h.version, h.first_partition_size), (0, 0));
    assert_eq!((h.width, h.height), (16, 16));
    assert_eq!((h.x_scale, h.y_scale), (0, 0));
}

#[test]
fn decodes_tag_subfields() {
    // Build tag with version=3, show_frame=1, first_partition_size=100.
    // tag = (100 << 5) | (1 << 4) | (3 << 1) = 3200 | 16 | 6 = 3222 = 0x0C96.
    let bytes = header([0x96, 0x0c, 0x00], 640, 480);
    let h = FrameHeader::parse_key_frame(&bytes).unwrap();
    assert_eq!(h.version, 3);
    assert!(h.show_frame);
    assert_eq!(h.first_partition_size, 100);
    assert_eq!((h.width, h.height), (640, 480));
}

#[test]
fn extracts_the_two_bit_scale_from_the_dimension_fields() {
    // width field = 16 | (x_scale=1 << 14); height field = 16 | (y_scale=2 << 14).
    let bytes = header([0x10, 0x00, 0x00], 16 | (1 << 14), 16 | (2 << 14));
    let h = FrameHeader::parse_key_frame(&bytes).unwrap();
    assert_eq!((h.width, h.height), (16, 16));
    assert_eq!((h.x_scale, h.y_scale), (1, 2));
}

#[test]
fn decodes_a_large_first_partition_size_across_all_three_tag_bytes() {
    let fps = 300_000u32; // 0x493E0: needs bits up to 18, so head[2] != 0.
    let tag = ((1u32 << 4) | (fps << 5)).to_le_bytes();
    let bytes = header([tag[0], tag[1], tag[2]], 320, 240);
    let h = FrameHeader::parse_key_frame(&bytes).unwrap();
    assert_eq!(
        h.first_partition_size, fps,
        "19-bit size across all 3 tag bytes"
    );
    assert_eq!((h.width, h.height), (320, 240));
}

#[test]
fn rejects_an_inter_frame() {
    let bytes = header([0x11, 0x00, 0x00], 16, 16); // bit 0 set => inter frame
    assert_eq!(
        FrameHeader::parse_key_frame(&bytes).unwrap_err(),
        Error::InvalidBitstream {
            codec: Codec::Lossy
        }
    );
}

#[test]
fn rejects_a_wrong_start_code() {
    let mut bytes = header([0x10, 0x00, 0x00], 16, 16);
    bytes[4] = 0x00; // corrupt the middle start-code byte
    assert_eq!(
        FrameHeader::parse_key_frame(&bytes).unwrap_err(),
        Error::InvalidBitstream {
            codec: Codec::Lossy
        }
    );
}

#[test]
fn rejects_zero_dimensions() {
    let bytes = header([0x10, 0x00, 0x00], 0, 16);
    assert_eq!(
        FrameHeader::parse_key_frame(&bytes).unwrap_err(),
        Error::InvalidBitstream {
            codec: Codec::Lossy
        }
    );
}

#[test]
fn rejects_a_truncated_header() {
    assert_eq!(
        FrameHeader::parse_key_frame(&[0u8; 9]).unwrap_err(),
        Error::Truncated
    );
}
