# agg

Sixel graphics decoding and terminal snapshots, verified with Verus.

- `src/stream.rs` says how a sixel data stream falls into commands, and
  `src/reader.rs` reads them.
- `src/picture.rs` says what each command does to the layout, the ink and the
  canvas of a picture.
- `src/sixel.rs` decodes the body of a device control string into an RGBA image
  and is proved to show exactly that picture.
- `src/extent.rs` tells whether the machine can hold an image before it is
  decoded.
- `src/laws.rs` proves what holds of every stream.
- `src/terminal.rs` wraps the virtual terminal of the `avt` crate and compares
  what two terminals show.
- `src/pixel.rs` declares the pixel types of the `rgb` crate.
- `app/` holds the conversion from hue, lightness and saturation, which works in
  floating point and is handed to `decode`.

What is taken on trust about `avt` and `rgb` stands in the doc comments of the
declarations in `src/terminal.rs` and `src/pixel.rs`.
