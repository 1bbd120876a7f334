//! Raster, SVG and PNG rendering and clean-raster parsing.

use glyphix::codec::{decode, encode, encode_with, EncodeOptions};
use glyphix::layout::{GlyphLayout, Separator};
use glyphix::pack::paint_value_u128;
use glyphix::profile::{bin10, bin8, c8_8};
use glyphix::render::{decode_png, encode_png, parse_rgba, render_rgba, render_svg, RenderOptions};
use glyphix::Integrity;

#[test]
fn rgba_roundtrip_encode_decode() {
    let p = bin10();
    let payload = b"phase3-rgba";
    let glyphs = encode(&p, payload).unwrap();
    let opts = RenderOptions::scale(3).unwrap();
    let img = render_rgba(&p, &glyphs, &opts).unwrap();
    let back = parse_rgba(&p, &img, &opts).unwrap();
    assert_eq!(back, glyphs);
    assert_eq!(decode(&p, &back).unwrap(), payload);
}

#[test]
fn scale_four_value_one_bottom_right_block() {
    let p = bin8();
    let g = paint_value_u128(&p, 1).unwrap();
    let opts = RenderOptions::scale(4).unwrap();
    let img = render_rgba(&p, &[g], &opts).unwrap();
    for y in 28..32 {
        for x in 28..32 {
            assert_eq!(img.get_rgb(x, y).unwrap(), [255, 255, 255], "{x},{y}");
        }
    }
    assert_eq!(img.get_rgb(0, 0).unwrap(), [0, 0, 0]);
    assert_eq!(img.get_rgb(27, 31).unwrap(), [0, 0, 0]);
}

#[test]
fn svg_contains_crisp_and_dimensions() {
    let p = bin8();
    let g = paint_value_u128(&p, 1).unwrap();
    let opts = RenderOptions::scale(2).unwrap();
    let svg = render_svg(&p, &[g], &opts).unwrap();
    assert!(svg.contains("crispEdges"));
    assert!(svg.contains(r#"width="16""#));
    assert!(svg.contains(r#"height="16""#));
    assert!(svg.contains(r#"x="14" y="14""#));
}

#[test]
fn c8_color_roundtrip() {
    let p = c8_8();
    let payload = b"colors!";
    let glyphs = encode(&p, payload).unwrap();
    let opts = RenderOptions {
        cell_scale: 2,
        margin: 1,
        gap: 1,
        gap_y: None,
        layout: GlyphLayout::HorizontalStrip,
        separator: None,
    };
    let img = render_rgba(&p, &glyphs, &opts).unwrap();
    let back = parse_rgba(&p, &img, &opts).unwrap();
    assert_eq!(decode(&p, &back).unwrap(), payload);
}

#[test]
fn grid_layout_roundtrip() {
    let p = bin8();
    let payload = b"grid-layout-test-bytes!!!!";
    let glyphs = encode(&p, payload).unwrap();
    assert!(glyphs.len() >= 2);
    let opts = RenderOptions::grid(2, 2, 1, 1).unwrap();
    let img = render_rgba(&p, &glyphs, &opts).unwrap();
    let back = parse_rgba(&p, &img, &opts).unwrap();
    assert_eq!(decode(&p, &back).unwrap(), payload);
}

#[test]
fn separator_strip_roundtrip() {
    let p = bin8();
    let glyphs = encode(&p, b"sep!").unwrap();
    let mut opts = RenderOptions::strip(2, 0, 1).unwrap();
    opts.separator = Some(Separator::gray(2).unwrap());
    let img = render_rgba(&p, &glyphs, &opts).unwrap();
    let back = parse_rgba(&p, &img, &opts).unwrap();
    assert_eq!(decode(&p, &back).unwrap(), b"sep!");
}

#[test]
fn integrity_survives_rgba() {
    let p = bin10();
    let payload = b"crc-in-image";
    let glyphs = encode_with(&p, payload, EncodeOptions::with_integrity(Integrity::Crc32)).unwrap();
    let opts = RenderOptions::scale(2).unwrap();
    let img = render_rgba(&p, &glyphs, &opts).unwrap();
    let back = parse_rgba(&p, &img, &opts).unwrap();
    assert_eq!(decode(&p, &back).unwrap(), payload);
}

#[test]
fn non_uniform_block_errors() {
    let p = bin8();
    let g = paint_value_u128(&p, 0).unwrap();
    let opts = RenderOptions::scale(2).unwrap();
    let mut img = render_rgba(&p, &[g], &opts).unwrap();
    img.pixels[0] = 255;
    assert!(parse_rgba(&p, &img, &opts).is_err());
}

#[test]
fn png_file_roundtrip() {
    let p = bin10();
    let payload = b"png-roundtrip";
    let opts = RenderOptions::scale(4).unwrap();
    let png = encode_png(&p, payload, &opts, EncodeOptions::default()).unwrap();
    let out = decode_png(&p, &png, &opts).unwrap();
    assert_eq!(out, payload);
}
