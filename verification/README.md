# compress_arw

Lossless compression of uncompressed 14-bit Sony ARW files into a `.ARWC.JPG`
container: a JPEG (the camera preview, behind a small stripable "view" APP1
that carries the orientation and a thumbnail) followed, after `FF D9`, by an
`ARWZ` trailer with the TIFF header minus the preview, the zstd-compressed
delta-coded raw strip, and an `ARWH` footer with the size and SHA-1 of the
ARW. Viewers stop at the end of the JPEG; `decode` rebuilds the ARW bit for
bit.

The library in `src/` is written in Verus. Its functions carry contracts
that Verus proves, except the small wrappers that call `zstd`, `sha1` and
`String::push` (in `compression` and `paths`): Verus takes their contracts
as given, and each one's doc comment says what it claims of the call.

- `bytes` — fixed-width integers in both byte orders.
- `transform` — the Bayer same-channel delta and byte shuffle, and its inverse.
- `jpeg` — JPEG marker scanning, EXIF orientation and thumbnail lookup, and
  the view APP1 (attach, strip).
- `tiff` — the TIFF/ARW IFD walk that finds the raw strip and the embedded
  JPEGs, and IFD0 orientation.
- `codec` — the container: trailer and footer, `encode`, `decode`,
  `inspect`, `extract_preview`.
- `paths` — default output file names, by the rules of `std::path::Path`
  on Unix.
- `compression` — the calls into `zstd` and `sha1`, with the contracts the
  rest of the library relies on.
- `roundtrip` — what encoding, decoding, inspecting and previewing promise of
  each other, proved: decoding an encoded ARW gives it back.

`app/` holds the command line (`encode`, `decode`, `preview`, `info`);
`tests/` holds the tests.
