//! Concrete instances of the library's laws, formulas and error cases.

use glyphix::args::{hex_fallback, parse_glyph_counts};
use glyphix::capacity::{format_report_line, glyphs_for_bytes, report, report_grid, table_all_presets};
use glyphix::codec::{
    capacity_bits, capacity_payload_bytes, capacity_payload_bytes_opts, capacity_payload_bytes_with, decode, encode,
    encode_with, frame_overhead_bits, glyph_count_for_opts, glyphs_needed, v2_overhead_bits, v3_overhead_bits,
    EncodeOptions,
};
use glyphix::color::{index_to_rgb, profile_index_to_rgb, profile_rgb_to_index, rgb_to_index};
use glyphix::ecc::Ecc;
use glyphix::grid::Grid;
use glyphix::layout::{glyph_origins, image_size, infer_glyph_count, pad_glyphs_for_grid, GlyphLayout, LayoutOptions};
use glyphix::pack::{
    grid_to_bit_string, normalize_bit_string, paint_bit_string, paint_digits, paint_value_u128, parse_bit_string,
    value_u128,
};
use glyphix::profile::{bin10, bin16, bin8, c8_8, preset, preset_ids, GlyphProfile};
use glyphix::render::{decode_png, encode_png, parse_rgba, png_to_rgba, render_rgba, rgba_to_png, RenderOptions, RgbaImage};
use glyphix::stream::{
    chunk_payload_capacity, chunks_needed, decode_chunked, encode_chunked, glyphs_for_payload, max_payload_for_glyphs,
    ChunkEncoder,
};
use glyphix::pack::{bits_to_bytes, bytes_to_bits, pack_glyph, paint_normalized_bits, unpack_glyph};
use glyphix::{GlyphixError, Integrity};

#[test]
fn capacity_is_the_largest_fitting_payload() {
    let p = bin10();
    assert_eq!(capacity_payload_bytes(&p, 10), 119);
    assert_eq!(glyph_count_for_opts(&p, &[7u8; 119], EncodeOptions::default()).unwrap(), 10);
    assert_eq!(glyph_count_for_opts(&p, &[7u8; 120], EncodeOptions::default()).unwrap(), 11);
    let rs = EncodeOptions::with_ecc(Ecc::rs10());
    assert_eq!(capacity_payload_bytes_opts(&p, 10, rs), 92);
    assert_eq!(glyph_count_for_opts(&p, &[7u8; 92], rs).unwrap(), 10);
    assert_eq!(glyph_count_for_opts(&p, &[7u8; 93], rs).unwrap(), 11);
    let crc = capacity_payload_bytes_with(&p, 10, Integrity::Crc32);
    assert_eq!(crc, 115);
    assert_eq!(glyphs_needed(&p, crc, Integrity::Crc32).unwrap(), 10);
    assert_eq!(glyphs_needed(&p, crc + 1, Integrity::Crc32).unwrap(), 11);
}

#[test]
fn sizing_formulas() {
    let p = bin8();
    assert_eq!(v2_overhead_bits(Integrity::Off), 48);
    assert_eq!(v2_overhead_bits(Integrity::Blake3_256), 48 + 256);
    assert_eq!(v3_overhead_bits(Integrity::Crc32), 56 + 32);
    assert_eq!(frame_overhead_bits(EncodeOptions::with_ecc(Ecc::rs10())), 56);
    assert_eq!(capacity_bits(&p, 3), 192);
    assert_eq!(capacity_bits(&p, usize::MAX), usize::MAX);
    assert_eq!(p.max_payload_bytes(3), 18);
    assert_eq!(glyphs_for_bytes(&p, 18, Integrity::Off).unwrap(), 3);
    assert_eq!(chunk_payload_capacity(&p, 4, Integrity::Crc32), 22);
    assert_eq!(chunks_needed(&p, 45, 4, Integrity::Crc32).unwrap(), 3);
    assert_eq!(chunks_needed(&p, 0, 4, Integrity::Crc32).unwrap(), 1);
    assert!(matches!(chunks_needed(&p, 5, 1, Integrity::Blake3_256), Err(GlyphixError::InvalidProfile(_))));
    assert_eq!(max_payload_for_glyphs(&p, 2, Integrity::Off), 10);
    assert_eq!(glyphs_for_payload(&p, 10, Integrity::Off).unwrap(), 2);
    assert_eq!(Ecc::rs10().ecc_len(), 26);
    assert_eq!(Ecc::rs10().max_message_len(), 229);
    assert_eq!(Ecc::rs10().coded_len(229), 255);
    assert_eq!(Ecc::rs10().coded_len(230), 282);
    assert_eq!(Ecc::Off.coded_len(77), 77);
    assert_eq!(Ecc::reed_solomon(90), Ecc::ReedSolomon { parity_percent: 50 });
    assert_eq!(Ecc::reed_solomon(0).tag(), 1);
}

#[test]
fn capacity_report_line_is_exact() {
    let r = report("bin10", &bin10(), 10, Integrity::Off, 1).unwrap();
    assert_eq!(r.chunks_if_budget_is_this, 1);
    assert_eq!(
        format_report_line(&r),
        "bin10       n=10    check=none         ecc=none    payload_bytes=119     bits=1000    100x10 @s=1  (10x10 C=2)"
    );
    let (g, w, h) = report_grid("bin8", &bin8(), 4, Integrity::Off, 2, 2).unwrap();
    assert_eq!((w, h), (32, 32));
    assert_eq!((g.image_w, g.image_h), (32, 32));
    let rows = table_all_presets(&[1, 2], Integrity::Off, 1).unwrap();
    assert!(table_all_presets(&[1], Integrity::Crc32, 1).is_err());
    assert_eq!(rows.len(), 12);
    assert_eq!(rows[0].profile_id, "bin8");
    assert_eq!(rows[11].profile_id, "rgb24_8");
}

#[test]
fn rendered_strip_reads_back_exactly() {
    let p = c8_8();
    let glyphs = encode_with(&p, b"strip readback", EncodeOptions::with_integrity(Integrity::Crc32)).unwrap();
    let mut opts = RenderOptions::strip(3, 2, 1).unwrap();
    opts.separator = Some(glyphix::Separator::new(2, [10, 200, 30]).unwrap());
    let img = render_rgba(&p, &glyphs, &opts).unwrap();
    assert_eq!(parse_rgba(&p, &img, &opts).unwrap(), glyphs);
}

#[test]
fn rendered_grid_reads_back_padded() {
    let p = bin8();
    let glyphs: Vec<Grid> = (1u128..=3).map(|v| paint_value_u128(&p, v).unwrap()).collect();
    let opts = RenderOptions::grid(2, 2, 1, 1).unwrap();
    let img = render_rgba(&p, &glyphs, &opts).unwrap();
    let back = parse_rgba(&p, &img, &opts).unwrap();
    assert_eq!(back.len(), 4);
    assert_eq!(&back[..3], &glyphs[..]);
    assert!(back[3].is_all_zero());
    assert_eq!(back, pad_glyphs_for_grid(&p, &glyphs, 2).unwrap());
}

#[test]
fn png_bytes_read_back_as_the_image() {
    let p = bin10();
    let glyphs = encode(&p, b"png bytes").unwrap();
    let opts = RenderOptions::scale(2).unwrap();
    let img = render_rgba(&p, &glyphs, &opts).unwrap();
    let png = rgba_to_png(&img).unwrap();
    assert_eq!(&png[..4], &[0x89, b'P', b'N', b'G']);
    assert_eq!(png_to_rgba(&png).unwrap(), img);
    let bytes = encode_png(&p, b"png bytes", &opts, EncodeOptions::with_ecc(Ecc::rs20())).unwrap();
    assert_eq!(decode_png(&p, &bytes, &opts).unwrap(), b"png bytes");
}

#[test]
fn short_buffer_is_not_written_as_png() {
    let img = RgbaImage { width: 2, height: 2, pixels: vec![0; 15] };
    assert!(matches!(rgba_to_png(&img), Err(GlyphixError::InvalidRender(_))));
}

#[test]
fn chunk_frames_stay_within_budget() {
    let p = bin10();
    let data: Vec<u8> = (0..700u32).map(|i| (i * 7) as u8).collect();
    let frames = encode_chunked(&p, &data, EncodeOptions::with_integrity(Integrity::Blake3_128), 3).unwrap();
    assert!(frames.iter().all(|f| f.len() <= 3));
    assert_eq!(frames.len(), chunks_needed(&p, data.len(), 3, Integrity::Blake3_128).unwrap());
    assert_eq!(decode_chunked(&p, &frames).unwrap(), data);
}

#[test]
fn streamed_pieces_decode_to_everything_pushed() {
    let p = bin8();
    let mut enc = ChunkEncoder::new(p, EncodeOptions::with_integrity(Integrity::Crc32), 5).unwrap();
    let cap = enc.chunk_capacity();
    let data: Vec<u8> = (0..(3 * cap + 4)).map(|i| i as u8).collect();
    let mut frames = Vec::new();
    for piece in data.chunks(cap / 2 + 1) {
        frames.extend(enc.push(piece).unwrap());
    }
    assert_eq!(enc.buffered_len(), 4);
    frames.push(enc.finish().unwrap().unwrap());
    assert_eq!(frames.len(), 4);
    assert_eq!(decode_chunked(&p, &frames).unwrap(), data);
    assert!(enc.finish().unwrap().is_none());
    assert_eq!(decode(&p, &enc.finish_with_empty().unwrap()).unwrap(), b"");
}

#[test]
fn streaming_whole_payload_equals_chunked_encode() {
    let p = bin8();
    let opts = EncodeOptions::with_integrity(Integrity::Crc32);
    for extra in [0usize, 3] {
        let mut enc = ChunkEncoder::new(p, opts, 4).unwrap();
        let cap = enc.chunk_capacity();
        let data: Vec<u8> = (0..(2 * cap + extra)).map(|i| (i * 13) as u8).collect();
        let mut frames = enc.push(&data).unwrap();
        frames.push(enc.finish().unwrap().unwrap());
        let chunked = encode_chunked(&p, &data, opts, 4).unwrap();
        if extra == 0 {
            assert_eq!(frames.len(), chunked.len() + 1);
            assert_eq!(frames[..chunked.len()], chunked[..]);
            assert_eq!(decode(&p, frames.last().unwrap()).unwrap(), b"");
        } else {
            assert_eq!(frames, chunked);
        }
        assert_eq!(decode_chunked(&p, &frames).unwrap(), data);
    }
}

#[test]
fn finish_after_a_push_emits_a_final_frame() {
    let p = bin8();
    let mut enc = ChunkEncoder::new(p, EncodeOptions::default(), 3).unwrap();
    assert!(enc.finish().unwrap().is_none());
    let cap = enc.chunk_capacity();
    let data = vec![7u8; cap];
    let mut frames = enc.push(&data).unwrap();
    assert_eq!(frames.len(), 1);
    assert_eq!(enc.buffered_len(), 0);
    let last = enc.finish().unwrap().unwrap();
    assert_eq!(decode(&p, &last).unwrap(), b"");
    frames.push(last);
    assert_eq!(decode_chunked(&p, &frames).unwrap(), data);
    assert!(enc.finish().unwrap().is_none());
}

#[test]
fn chunk_frames_stay_within_budget_with_ecc() {
    let p = bin8();
    let opts = EncodeOptions::with_ecc(Ecc::rs10());
    let data: Vec<u8> = (0..70u8).collect();
    assert!(matches!(encode_chunked(&p, &data[..26], opts, 4), Err(GlyphixError::InvalidProfile(_))));
    let frames = encode_chunked(&p, &data, opts, 8).unwrap();
    assert!(frames.len() > 1);
    assert!(frames.iter().all(|f| f.len() <= 8));
    assert_eq!(decode_chunked(&p, &frames).unwrap(), data);
    let mut enc = ChunkEncoder::new(p, opts, 8).unwrap();
    let mut streamed = enc.push(&data).unwrap();
    streamed.push(enc.finish().unwrap().unwrap());
    assert!(streamed.iter().all(|f| f.len() <= 8));
    assert_eq!(decode_chunked(&p, &streamed).unwrap(), data);
}

#[test]
fn parity_above_fifty_reads_back() {
    let p = bin10();
    let opts = EncodeOptions::with_ecc(Ecc::ReedSolomon { parity_percent: 60 });
    let data = b"parity past fifty percent".to_vec();
    let g = encode_with(&p, &data, opts).unwrap();
    assert_eq!(decode(&p, &g).unwrap(), data);
    let frames = encode_chunked(&p, &data, opts, 40).unwrap();
    assert_eq!(decode_chunked(&p, &frames).unwrap(), data);
}

#[test]
fn names_and_tags_read_back() {
    for i in [Integrity::Off, Integrity::Crc32, Integrity::Blake3_128, Integrity::Blake3_256] {
        assert_eq!(Integrity::from_tag(i.tag()).unwrap(), i);
        assert_eq!(Integrity::parse(i.as_str()).unwrap(), i);
        assert_eq!(i.compute(b"abc").len(), i.trailer_len());
    }
    for e in [Ecc::Off, Ecc::rs10(), Ecc::rs20(), Ecc::reed_solomon(33)] {
        assert_eq!(Ecc::from_tag(e.tag()).unwrap(), e);
    }
    for e in [Ecc::Off, Ecc::rs10(), Ecc::rs20()] {
        assert_eq!(Ecc::parse(e.as_str()).unwrap(), e);
    }
    assert_eq!(Ecc::reed_solomon(33).as_str(), "rs");
    assert!(Ecc::parse("rs").is_err());
    assert_eq!(Ecc::parse(" RS=7 ").unwrap(), Ecc::reed_solomon(7));
    assert_eq!(Ecc::parse("15%").unwrap(), Ecc::reed_solomon(15));
    assert_eq!(Integrity::parse("B3").unwrap(), Integrity::Blake3_256);
}

#[test]
fn listed_presets_name_themselves() {
    let ids = preset_ids();
    assert_eq!(ids, vec!["bin8", "bin10", "bin16", "c8_8", "c256_8", "rgb24_8"]);
    for id in ids {
        assert_eq!(preset(id).unwrap().preset_id(), Some(id));
    }
    assert!(matches!(preset("bin9"), Err(GlyphixError::InvalidProfile(_))));
    assert_eq!(GlyphProfile::new(3, 5, 16).unwrap().preset_id(), None);
}

#[test]
fn set_then_get() {
    let mut g = Grid::from_profile(&bin8());
    g.set(3, 5, 1).unwrap();
    assert_eq!(g.get(3, 5).unwrap(), 1);
    assert_eq!(g.get(5, 3).unwrap(), 0);
    g.set_place(0, 1).unwrap();
    assert_eq!(g.get(7, 7).unwrap(), 1);
    assert_eq!(g.get_place(0).unwrap(), 1);
    assert_eq!(g.cells().iter().filter(|&&c| c == 1).count(), 2);
    g.cells_mut()[0] = 1;
    assert_eq!(g.get(0, 0).unwrap(), 1);
    assert_eq!((g.width(), g.height()), (8, 8));
}

#[test]
fn colors_read_back_on_generic_palettes() {
    for palette in [2u32, 4, 8, 16, 64, 256, 4096, 1 << 20, 1 << 24] {
        for index in [0u32, 1, palette / 2, palette - 1] {
            let rgb = index_to_rgb(palette, index).unwrap();
            assert_eq!(rgb_to_index(palette, rgb).unwrap(), index, "palette {palette} index {index}");
        }
    }
    assert_eq!(index_to_rgb(16, 15).unwrap(), [255, 255, 255]);
    assert_eq!(index_to_rgb(8, 5).unwrap(), [255, 0, 255]);
    let p = c8_8();
    assert_eq!(profile_rgb_to_index(&p, profile_index_to_rgb(&p, 6).unwrap()).unwrap(), 6);
    assert!(matches!(index_to_rgb(8, 8), Err(GlyphixError::ColorOutOfRange { index: 8, palette_size: 8 })));
}

#[test]
fn values_and_notation_read_back() {
    let p = bin10();
    assert!(paint_value_u128(&p, 1u128 << 100).is_err());
    assert!(value_u128(&bin16(), &Grid::from_profile(&bin16())).is_err());
    for v in [0u128, 1, 2, 12345, (1u128 << 100) - 1] {
        let g = paint_value_u128(&p, v).unwrap();
        assert_eq!(value_u128(&p, &g).unwrap(), v);
    }
    let s = "1011_0001";
    let g = paint_bit_string(&bin8(), s).unwrap();
    let bits = parse_bit_string(s).unwrap();
    let norm: String = normalize_bit_string(&bits, 64).iter().map(|&b| if b { '1' } else { '0' }).collect();
    assert_eq!(grid_to_bit_string(&bin8(), &g).unwrap(), norm);
    assert_eq!(value_u128(&bin8(), &g).unwrap(), 0b1011_0001);
    let mut digits = vec![0u32; 64];
    digits[0] = 3;
    digits[2] = 7;
    let d = paint_digits(&c8_8(), &digits).unwrap();
    assert_eq!(d.get(7, 7).unwrap(), 3);
    assert_eq!(d.get(5, 7).unwrap(), 7);
    digits[9] = 8;
    assert!(matches!(paint_digits(&c8_8(), &digits), Err(GlyphixError::ColorOutOfRange { index: 8, palette_size: 8 })));
    assert!(matches!(paint_digits(&c8_8(), &[1, 2, 3]), Err(GlyphixError::InvalidProfile(_))));
}

#[test]
fn layout_counts_read_back() {
    let p = bin8();
    let opts = LayoutOptions::grid(3, 4, 2, 1).unwrap();
    let (w, h) = image_size(&p, 8, &opts).unwrap();
    assert_eq!(infer_glyph_count(&p, w, h, &opts).unwrap(), 8);
    let origins = glyph_origins(&p, 8, &opts).unwrap();
    assert_eq!(origins[5], (2 + 25, 2 + 25));
    assert_eq!(GlyphLayout::grid(4).unwrap().rows_for(9), 3);
    assert_eq!(GlyphLayout::HorizontalStrip.columns_for(0), 1);
}

#[test]
fn command_line_notations() {
    assert_eq!(parse_glyph_counts("1, 4,10"), Some(vec![1, 4, 10]));
    assert_eq!(parse_glyph_counts("+7"), Some(vec![7]));
    assert_eq!(parse_glyph_counts("1,x"), None);
    assert_eq!(parse_glyph_counts(""), None);
    assert_eq!(parse_glyph_counts("99999999999999999999999"), None);
    assert_eq!(hex_fallback(&[0x00, 0xab, 0xff, 0x10]), "00abff10");
}

#[test]
fn outside_codecs_give_known_values() {
    let b3 = Integrity::Blake3_256.compute(b"");
    let expect = [
        0xaf, 0x13, 0x49, 0xb9, 0xf5, 0xf9, 0xa1, 0xa6, 0xa0, 0x40, 0x4d, 0xea, 0x36, 0xdc, 0xc9, 0x49, 0x9b, 0xcb, 0x25,
        0xc9, 0xad, 0xc1, 0x12, 0xb7, 0xcc, 0x9a, 0x93, 0xca, 0xe4, 0x1f, 0x32, 0x62,
    ];
    assert_eq!(b3, expect);
    assert_eq!(Integrity::Blake3_128.compute(b""), &expect[..16]);
    assert!(Integrity::Crc32.verify(b"123456789", &[0xCB, 0xF4, 0x39, 0x26]).is_ok());
    let coded = Ecc::rs10().encode_body(&[1, 2, 3]).unwrap();
    assert_eq!(coded.len(), 29);
    assert_eq!(&coded[..3], &[1, 2, 3]);
    assert!(coded[3..].iter().any(|&b| b != 0));
}

#[test]
fn every_error_variant_has_an_input() {
    let p = bin8();
    assert!(matches!(GlyphProfile::new(8, 8, 3), Err(GlyphixError::InvalidProfile(_))));
    assert!(matches!(rgb_to_index(2, [1, 2, 3]), Err(GlyphixError::UnmappedColor { r: 1, g: 2, b: 3, palette_size: 2 })));
    let mut bad = Grid::from_profile(&p);
    bad.set(0, 0, 5).unwrap();
    assert!(matches!(bad.validate_palette(2), Err(GlyphixError::ColorOutOfRange { index: 5, palette_size: 2 })));
    let small = Grid::zeros(4, 4).unwrap();
    assert!(matches!(
        decode(&p, &[small]),
        Err(GlyphixError::GridSizeMismatch { got_w: 4, got_h: 4, want_w: 8, want_h: 8 })
    ));
    assert!(matches!(
        Ecc::Off.decode_body(b"ab", 5),
        Err(GlyphixError::TruncatedStream { needed: 40, available: 16 })
    ));
    let mut long = encode(&p, b"").unwrap();
    long[0].set_place(16, 1).unwrap();
    assert!(matches!(decode(&p, &long), Err(GlyphixError::PayloadTooLong { .. })));
    let tiny = GlyphProfile::with_max_glyphs(8, 8, 2, 1).unwrap();
    assert!(matches!(encode(&tiny, &[0u8; 10]), Err(GlyphixError::GlyphCountExceeded { cap: 1, .. })));
    assert!(matches!(
        decode(&p, &[Grid::from_profile(&p)]),
        Err(GlyphixError::UnsupportedVersion { got: 0, .. })
    ));
    assert!(matches!(Ecc::from_tag(99), Err(GlyphixError::UnknownEcc { tag: 99 })));
    assert!(matches!(Ecc::rs10().decode_body(&[0u8; 5], 3), Err(GlyphixError::EccDecodeFailed(_))));
    let mut dirty = encode(&p, b"").unwrap();
    dirty[0].set_place(60, 1).unwrap();
    assert!(matches!(decode(&p, &dirty), Err(GlyphixError::DirtyPadding)));
    assert!(matches!(
        Grid::from_profile(&p).get(99, 0),
        Err(GlyphixError::OutOfBounds { x: 99, y: 0, width: 8, height: 8 })
    ));
    assert!(matches!(RenderOptions::scale(0), Err(GlyphixError::InvalidRender(_))));
    let opts = RenderOptions::scale(2).unwrap();
    let odd = RgbaImage { width: 5, height: 5, pixels: vec![0; 100] };
    assert!(matches!(parse_rgba(&p, &odd, &opts), Err(GlyphixError::InvalidRaster(_))));
    assert!(matches!(decode_png(&p, b"not a png", &opts), Err(GlyphixError::Io(_))));
    assert!(matches!(paint_bit_string(&p, "102"), Err(GlyphixError::InvalidBitString(_))));
}

#[test]
fn corrected_payload_reads_back_from_a_padded_grid() {
    let p = bin10();
    let payload: Vec<u8> = (0..150u32).map(|i| (i * 13) as u8).collect();
    let eo = EncodeOptions::with_integrity_and_ecc(Integrity::Blake3_128, Ecc::rs20());
    let glyphs = encode_with(&p, &payload, eo).unwrap();
    let opts = RenderOptions::grid(1, 4, 3, 2).unwrap();
    let img = render_rgba(&p, &glyphs, &opts).unwrap();
    let back = parse_rgba(&p, &img, &opts).unwrap();
    assert_eq!(back.len() % 4, 0);
    assert!(back.len() > glyphs.len());
    assert_eq!(decode(&p, &back).unwrap(), payload);
}

#[test]
fn painted_glyphs_read_back() {
    let p = bin10();
    for v in [0u128, 1, 12345, (1u128 << 100) - 1] {
        let g = paint_value_u128(&p, v).unwrap();
        assert_eq!(value_u128(&p, &g).unwrap(), v);
    }
    let bits: Vec<bool> = (0..100).map(|i| i % 3 == 0).collect();
    let g = paint_normalized_bits(&p, &bits).unwrap();
    let s: String = bits.iter().map(|&b| if b { '1' } else { '0' }).collect();
    assert_eq!(grid_to_bit_string(&p, &g).unwrap(), s);
    let stream: Vec<bool> = (0..130).map(|i| i % 7 < 3).collect();
    let g = pack_glyph(&p, &stream, 20).unwrap();
    let mut out = vec![true];
    unpack_glyph(&p, &g, &mut out).unwrap();
    assert_eq!(out[1..], stream[20..120]);
}

#[test]
fn bits_survive_bytes_with_zero_padding() {
    let bits: Vec<bool> = (0..13).map(|i| i % 2 == 0).collect();
    let bytes = bits_to_bytes(&bits);
    assert_eq!(bytes.len(), 2);
    let back = bytes_to_bits(&bytes);
    assert_eq!(back.len(), 16);
    assert_eq!(back[..13], bits[..]);
    assert!(back[13..].iter().all(|b| !b));
}

#[test]
fn preset_ids_follow_the_shape() {
    for id in preset_ids() {
        assert_eq!(preset(id).unwrap().preset_id(), Some(id));
    }
    assert_eq!(GlyphProfile::new(4, 4, 2).unwrap().preset_id(), None);
    assert_eq!(GlyphProfile::with_max_glyphs(10, 10, 2, 7).unwrap().preset_id(), Some("bin10"));
}

#[test]
fn inference_fails_only_where_the_reader_overflows() {
    let p = bin8();
    let wide_gap = LayoutOptions {
        cell_scale: 1,
        margin: 0,
        gap_x: 1 << 31,
        gap_y: 0,
        layout: GlyphLayout::HorizontalStrip,
        separator: None,
    };
    let (w, h) = image_size(&p, 2, &wide_gap).unwrap();
    assert_eq!((w, h), (8 + (1 << 31) + 8, 8));
    assert!(matches!(infer_glyph_count(&p, w, h, &wide_gap), Err(GlyphixError::InvalidRaster(m)) if m == "width overflow"));
    let tall_gap = LayoutOptions { gap_x: 0, gap_y: u32::MAX, ..wide_gap };
    assert_eq!(image_size(&p, 1, &tall_gap).unwrap(), (8, 8));
    assert!(matches!(infer_glyph_count(&p, 8, 8, &tall_gap), Err(GlyphixError::InvalidRender(m)) if m == "step_y overflow"));
    let fits = LayoutOptions { gap_x: 3, gap_y: 5, margin: 2, ..wide_gap };
    let (w, h) = image_size(&p, 7, &fits).unwrap();
    assert_eq!(infer_glyph_count(&p, w, h, &fits).unwrap(), 7);
    let grid = LayoutOptions::grid(2, 3, 1, 4).unwrap();
    let (w, h) = image_size(&p, 9, &grid).unwrap();
    assert_eq!(infer_glyph_count(&p, w, h, &grid).unwrap(), 9);
}
