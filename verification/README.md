# Glyphix

Pixel grids as symbols of a huge algorithmic alphabet: a glyph is a W × H grid
of color indices, counted in base C from the bottom-right place. Byte strings
are framed (version, integrity tag, optional Reed–Solomon, length, trailer),
spread over as many glyphs as needed, and drawn as exact rasters, SVG or PNG.

The library is written in Verus; every function in `src/` carries a contract
that Verus proves, except the few `#[verifier::external_body]` wrappers whose
bodies call `blake3`, `crc32fast`, `reed-solomon`, `image` or std formatting:
their contracts are trusted, and each doc comment says what it claims.

## Layout

- `src/profile.rs`, `grid.rs`, `digits.rs`, `pack.rs` — profiles, grids, place
  values, bit streams and bit-string painting.
- `src/check.rs`, `ecc.rs`, `codec.rs` — integrity trailers (CRC-32, BLAKE3),
  Reed–Solomon bodies, the framed codec and its sizing.
- `src/color.rs`, `layout.rs`, `render.rs`, `readback.rs` — palettes, glyph
  placement, raster/SVG/PNG rendering, clean-raster parsing, and the proof that
  parsing a rendered image gives back the drawn glyphs.
- `src/stream.rs`, `capacity.rs` — chunked framing, the streaming encoder and
  capacity reports.
- `src/strings.rs`, `text.rs`, `args.rs`, `error.rs` — names, numerals and errors.
- `app/` — the `glyphix` command line (argument handling, files, printing).
- `tests/` — executable tests of the library.
