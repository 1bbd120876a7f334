//! The exact text of the library's error messages.

use glyphix::codec::{encode_with, EncodeOptions};
use glyphix::ecc::{append_codeword, take_corrected_block, Ecc};
use glyphix::grid::Grid;
use glyphix::layout::{glyph_origin, infer_glyph_count, LayoutOptions};
use glyphix::pack::{paint_bit_string_sequence, paint_digits, paint_normalized_bits, parse_bit_string, value_u128};
use glyphix::profile::{bin10, bin16, bin8, preset, GlyphProfile};
use glyphix::render::{decode_png, parse_rgba, render_rgba, RenderOptions};
use glyphix::stream::{chunks_needed, encode_chunked, glyph_batches, ChunkEncoder};
use glyphix::{GlyphixError, Integrity};

fn text(e: GlyphixError) -> String {
    match e {
        GlyphixError::InvalidProfile(m)
        | GlyphixError::EccDecodeFailed(m)
        | GlyphixError::InvalidRender(m)
        | GlyphixError::InvalidRaster(m)
        | GlyphixError::Io(m)
        | GlyphixError::InvalidBitString(m) => m,
        other => panic!("no message in {other:?}"),
    }
}

#[test]
fn bit_string_messages() {
    assert_eq!(
        text(parse_bit_string("01x1").unwrap_err()),
        "invalid character 'x' at index 2; only 0/1 (and _ - whitespace) allowed"
    );
    assert_eq!(
        text(parse_bit_string("1 \\").unwrap_err()),
        "invalid character '\\\\' at index 2; only 0/1 (and _ - whitespace) allowed"
    );
    assert_eq!(
        text(paint_bit_string_sequence(&bin8(), "1, 0, 1q", None).unwrap_err()),
        "invalid character 'q' at index 1; only 0/1 (and _ - whitespace) allowed"
    );
    assert_eq!(
        text(paint_normalized_bits(&bin8(), &[true; 3]).unwrap_err()),
        "expected 64 bits after normalize, got 3"
    );
    assert_eq!(text(paint_digits(&bin8(), &[0; 5]).unwrap_err()), "expected 64 digits, got 5");
    let g = Grid::from_profile(&bin16());
    assert_eq!(text(value_u128(&bin16(), &g).unwrap_err()), "value_u128 only for glyphs ≤ 128 bits");
}

#[test]
fn profile_and_name_messages() {
    assert_eq!(
        text(GlyphProfile::new(8, 8, 3).unwrap_err()),
        "palette_size 3 must be a power of two in MVP bit packing"
    );
    assert_eq!(text(GlyphProfile::new(0, 8, 2).unwrap_err()), "width and height must be ≥ 1");
    assert_eq!(text(GlyphProfile::with_max_glyphs(8, 8, 2, 0).unwrap_err()), "max_glyphs must be ≥ 1");
    assert_eq!(
        text(preset("nope").unwrap_err()),
        "unknown preset `nope`; try bin8, bin10, bin16, c8_8, c256_8, rgb24_8"
    );
    assert_eq!(
        text(Integrity::parse("MD5").unwrap_err()),
        "unknown integrity `md5`; try none, crc32, blake3-128, blake3-256"
    );
    assert_eq!(text(Ecc::parse("rs:abc").unwrap_err()), "bad ecc `rs:abc`");
    assert_eq!(text(Ecc::parse(" Foo ").unwrap_err()), "unknown ecc `foo`; try none, rs10, rs20, rs:15");
    assert_eq!(text(Grid::zeros(0, 3).unwrap_err()), "width and height must be ≥ 1");
}

#[test]
fn layout_messages() {
    let p = bin8();
    let opts = LayoutOptions::default();
    assert_eq!(text(glyph_origin(&p, 5, 3, &opts).unwrap_err()), "glyph index 5 out of range for count 3");
    assert_eq!(text(infer_glyph_count(&p, 16, 9, &opts).unwrap_err()), "strip height 9 != glyph height 8");
    assert_eq!(
        text(infer_glyph_count(&p, 17, 8, &opts).unwrap_err()),
        "inner width 17 not divisible by glyph width 8"
    );
    assert_eq!(text(LayoutOptions::scale(0).unwrap_err()), "cell_scale (S) must be ≥ 1");
    assert_eq!(text(LayoutOptions::grid(0, 0, 0, 0).unwrap_err()), "grid columns must be ≥ 1");
    assert_eq!(text(RenderOptions::scale(0).unwrap_err()), "cell_scale (S) must be ≥ 1");
}

#[test]
fn chunking_messages() {
    let p = bin8();
    let opts = EncodeOptions::with_integrity(Integrity::Blake3_256);
    assert_eq!(
        text(encode_chunked(&p, b"abc", opts, 1).unwrap_err()),
        "max_glyphs_per_chunk=1 cannot hold any payload bytes with Blake3_256"
    );
    assert_eq!(text(encode_chunked(&p, b"abc", opts, 0).unwrap_err()), "max_glyphs_per_chunk must be ≥ 1");
    assert_eq!(text(chunks_needed(&p, 10, 1, Integrity::Blake3_256).unwrap_err()), "chunk capacity is 0 bytes");
    assert_eq!(text(ChunkEncoder::new(p, opts, 1).unwrap_err()), "invalid chunk encoder capacity");
    let g = encode_with(&p, b"hi", EncodeOptions::default()).unwrap();
    assert_eq!(text(glyph_batches(&g, 0).unwrap_err()), "batch_size must be ≥ 1");
}

#[test]
fn ecc_body_messages() {
    let rs = Ecc::rs10();
    let expected = rs.coded_len(5);
    assert_eq!(
        text(rs.decode_body(&[1, 2, 3], 5).unwrap_err()),
        format!("coded body length 3 != expected {expected} for payload_len=5")
    );
    assert_eq!(text(rs.decode_body(&[1], 0).unwrap_err()), "empty payload but non-empty coded body");
    let mut coded = rs.encode_body(b"hello").unwrap();
    for (i, b) in coded.iter_mut().enumerate() {
        *b ^= 0x5a ^ (i as u8);
    }
    assert_eq!(text(rs.decode_body(&coded, 5).unwrap_err()), "RS correct failed: TooManyErrors");
}

#[test]
fn raster_messages() {
    let p = bin8();
    let opts = RenderOptions::scale(2).unwrap();
    let g = Grid::from_profile(&p);
    let mut img = render_rgba(&p, &[g], &opts).unwrap();
    let at = ((4 * img.width + 3) * 4) as usize;
    img.pixels[at] = 255;
    img.pixels[at + 1] = 255;
    img.pixels[at + 2] = 255;
    assert_eq!(
        text(parse_rgba(&p, &img, &opts).unwrap_err()),
        "non-uniform cell block at (2,4) scale 2: [0, 0, 0] vs [255, 255, 255]"
    );
    let err = text(decode_png(&bin10(), b"not a png", &opts).unwrap_err());
    assert!(err.starts_with("read PNG: "));
}

#[test]
fn corrected_blocks_are_taken_or_refused() {
    let mut out = vec![1u8];
    take_corrected_block(&mut out, 2, Ok(vec![5, 6])).unwrap();
    assert_eq!(out, vec![1, 5, 6]);
    assert_eq!(text(take_corrected_block(&mut out, 3, Ok(vec![7])).unwrap_err()), "RS data len 1 != 3");
    assert_eq!(out, vec![1, 5, 6]);
    let refused = take_corrected_block(&mut out, 2, Err(reed_solomon::DecoderError::TooManyErrors));
    assert_eq!(text(refused.unwrap_err()), "RS correct failed: TooManyErrors");
    assert_eq!(out, vec![1, 5, 6]);
    let mut body = vec![9u8];
    append_codeword(&mut body, vec![1, 2]);
    assert_eq!(body, vec![9, 1, 2]);
}
