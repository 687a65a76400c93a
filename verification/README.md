# webpkit

A codec for lossy still pictures: it encodes RGBA pixels into VP8 key frames and decodes
them again, with rate control over the quality scale. All of it is verified with Verus.

- `src/` is the library. Its crate documentation names the modules and the main laws.
- `tests/` runs the library on concrete pictures, frames and files.

The central law is `roundtrip::decode_inverts_encode`: decoding an encoded frame yields
the reconstruction of the encoder pass that wrote it, pixel for pixel. It holds for every
picture, quantizer, effort and setting of the knobs, as long as the size of that pass's
control partition fits the nineteen bits that the frame header has for it; a larger one is
written with its size cut off, and nothing is said of its decode. For files,
`encoder::decode_inverts_encode_image` also asks that the frame's size fits the 32 bits of
the container's length field.

Work is spread over threads with `rayon`; what the library relies on there is stated at
`rayon::join` in `src/emit.rs`, `map_in_parallel` in `src/wavefront.rs` and
`emit_rows_parallel` in `src/yuv.rs`. Nothing else is taken on trust.
