//! Place indices, layout geometry, profiles and colors.

use glyphix::color::{index_to_rgb, rgb_to_index};
use glyphix::grid::Grid;
use glyphix::layout::{glyph_origin, image_size, infer_glyph_count, LayoutOptions, Separator};
use glyphix::profile::{bin10, bin16, bin8, c256_8, c8_8, rgb24_8, GlyphProfile};

#[test]
fn place_zero_is_bottom_right() {
    let w = 8u32;
    let h = 8u32;
    assert_eq!(Grid::place_index(w, h, 7, 7).unwrap(), 0);
    assert_eq!(Grid::coords_for_place(w, h, 0).unwrap(), (7, 7));
}

#[test]
fn place_one_is_left_of_bottom_right() {
    let w = 8u32;
    let h = 8u32;
    assert_eq!(Grid::place_index(w, h, 6, 7).unwrap(), 1);
    assert_eq!(Grid::coords_for_place(w, h, 1).unwrap(), (6, 7));
}

#[test]
fn place_width_is_row_above_right() {
    let w = 10u32;
    let h = 10u32;
    assert_eq!(Grid::place_index(w, h, 9, 8).unwrap(), 10);
    assert_eq!(Grid::coords_for_place(w, h, 10).unwrap(), (9, 8));
}

#[test]
fn place_roundtrip_all_cells() {
    let w = 5u32;
    let h = 4u32;
    for y in 0..h {
        for x in 0..w {
            let p = Grid::place_index(w, h, x, y).unwrap();
            assert_eq!(Grid::coords_for_place(w, h, p).unwrap(), (x, y));
        }
    }
}

#[test]
fn strip_dimensions() {
    let p = bin8();
    let opts = LayoutOptions::strip(2, 1, 1).unwrap();
    let (w, h) = image_size(&p, 3, &opts).unwrap();
    assert_eq!((w, h), (52, 18));
}

#[test]
fn grid_2x2() {
    let p = bin8();
    let opts = LayoutOptions::grid(1, 2, 0, 0).unwrap();
    let (w, h) = image_size(&p, 4, &opts).unwrap();
    assert_eq!((w, h), (16, 16));
    assert_eq!(glyph_origin(&p, 0, 4, &opts).unwrap(), (0, 0));
    assert_eq!(glyph_origin(&p, 1, 4, &opts).unwrap(), (8, 0));
    assert_eq!(glyph_origin(&p, 2, 4, &opts).unwrap(), (0, 8));
    assert_eq!(glyph_origin(&p, 3, 4, &opts).unwrap(), (8, 8));
}

#[test]
fn separator_widens_strip() {
    let p = bin8();
    let mut opts = LayoutOptions::strip(1, 0, 0).unwrap();
    opts.separator = Some(Separator::gray(2).unwrap());
    let (w, _) = image_size(&p, 2, &opts).unwrap();
    assert_eq!(w, 18);
}

#[test]
fn infer_strip_count() {
    let p = bin8();
    let opts = LayoutOptions::strip(4, 0, 2).unwrap();
    let (w, h) = image_size(&p, 5, &opts).unwrap();
    assert_eq!(infer_glyph_count(&p, w, h, &opts).unwrap(), 5);
}

#[test]
fn bits_per_glyph_presets() {
    assert_eq!(bin8().bits_per_glyph(), 64);
    assert_eq!(bin10().bits_per_glyph(), 100);
    assert_eq!(bin16().bits_per_glyph(), 256);
    assert_eq!(c8_8().bits_per_glyph(), 192);
    assert_eq!(c256_8().bits_per_glyph(), 512);
    assert_eq!(rgb24_8().bits_per_glyph(), 1536);
}

#[test]
fn rejects_non_power_of_two_palette() {
    assert!(GlyphProfile::new(8, 8, 3).is_err());
    assert!(GlyphProfile::new(8, 8, 1).is_err());
}

#[test]
fn glyphs_needed_empty_still_one() {
    assert_eq!(bin8().glyphs_needed_for_payload(0).unwrap(), 1);
}

#[test]
fn binary_roundtrip() {
    assert_eq!(index_to_rgb(2, 0).unwrap(), [0, 0, 0]);
    assert_eq!(index_to_rgb(2, 1).unwrap(), [255, 255, 255]);
    assert_eq!(rgb_to_index(2, [0, 0, 0]).unwrap(), 0);
    assert_eq!(rgb_to_index(2, [255, 255, 255]).unwrap(), 1);
}

#[test]
fn c8_all_roundtrip() {
    for i in 0..8 {
        let rgb = index_to_rgb(8, i).unwrap();
        assert_eq!(rgb_to_index(8, rgb).unwrap(), i);
    }
}

#[test]
fn gray_and_rgb24() {
    assert_eq!(index_to_rgb(256, 128).unwrap(), [128, 128, 128]);
    assert_eq!(rgb_to_index(256, [128, 128, 128]).unwrap(), 128);
    let c = 0x00AB_12_34;
    assert_eq!(index_to_rgb(1 << 24, c).unwrap(), [0xAB, 0x12, 0x34]);
    assert_eq!(rgb_to_index(1 << 24, [0xAB, 0x12, 0x34]).unwrap(), c);
}
