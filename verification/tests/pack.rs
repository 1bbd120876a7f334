//! Place values, glyph packing and bit-string painting.

use glyphix::pack::{
    bits_to_bytes, bytes_to_bits, grid_to_bit_string, pack_glyph, paint_bit_string, paint_bit_string_sequence,
    paint_bit_string_sequence_with, paint_value_u128, unpack_glyph, value_u128, BitSequenceMode,
};
use glyphix::profile::{bin10, bin8};

#[test]
fn value_zero_all_black() {
    let g = paint_value_u128(&bin8(), 0).unwrap();
    assert!(g.is_all_zero());
}

#[test]
fn value_one_bottom_right_only() {
    let p = bin8();
    let g = paint_value_u128(&p, 1).unwrap();
    assert_eq!(g.get(7, 7).unwrap(), 1);
    for y in 0..8 {
        for x in 0..8 {
            if (x, y) != (7, 7) {
                assert_eq!(g.get(x, y).unwrap(), 0, "cell ({x},{y})");
            }
        }
    }
    assert_eq!(value_u128(&p, &g).unwrap(), 1);
}

#[test]
fn value_two_left_of_br() {
    let p = bin8();
    let g = paint_value_u128(&p, 2).unwrap();
    assert_eq!(g.get(7, 7).unwrap(), 0);
    assert_eq!(g.get(6, 7).unwrap(), 1);
    assert_eq!(value_u128(&p, &g).unwrap(), 2);
}

#[test]
fn value_three_bottom_two() {
    let p = bin10();
    let g = paint_value_u128(&p, 3).unwrap();
    assert_eq!(g.get(9, 9).unwrap(), 1);
    assert_eq!(g.get(8, 9).unwrap(), 1);
    assert_eq!(g.get(7, 9).unwrap(), 0);
    assert_eq!(value_u128(&p, &g).unwrap(), 3);
}

#[test]
fn pack_unpack_roundtrip_bits() {
    let p = bin8();
    let mut bits = vec![false; 64];
    bits[0] = true;
    let g = pack_glyph(&p, &bits, 0).unwrap();
    assert_eq!(g.get(7, 7).unwrap(), 1);
    let mut out = Vec::new();
    unpack_glyph(&p, &g, &mut out).unwrap();
    assert_eq!(out, bits);
}

#[test]
fn bytes_bits_roundtrip() {
    let data = [0x00u8, 0xA5, 0xFF, 0x12];
    let bits = bytes_to_bits(&data);
    assert_eq!(bits.len(), 32);
    assert_eq!(bits_to_bytes(&bits), data);
}

#[test]
fn bit_string_one_is_bottom_right() {
    let p = bin8();
    for s in ["1", "00000000001", "0_0_0_1"] {
        let g = paint_bit_string(&p, s).unwrap();
        assert_eq!(g.get(7, 7).unwrap(), 1, "{s}");
        for y in 0..8 {
            for x in 0..8 {
                if (x, y) != (7, 7) {
                    assert_eq!(g.get(x, y).unwrap(), 0, "{s} ({x},{y})");
                }
            }
        }
        assert_eq!(value_u128(&p, &g).unwrap(), 1);
    }
}

#[test]
fn bit_string_all_ones_left_truncates_to_full_white() {
    let p = bin8();
    let mut s = "1".repeat(64);
    s.push_str("000000000000000");
    let g = paint_bit_string(&p, &s).unwrap();
    for y in 0..8 {
        for x in 0..8 {
            assert_eq!(g.get(x, y).unwrap(), 1, "({x},{y})");
        }
    }
    assert_eq!(grid_to_bit_string(&p, &g).unwrap(), "1".repeat(64));
}

#[test]
fn bit_string_roundtrip_grid() {
    let p = bin10();
    let s = "10110001";
    let g = paint_bit_string(&p, s).unwrap();
    let out = grid_to_bit_string(&p, &g).unwrap();
    assert!(out.ends_with("10110001"));
    assert_eq!(out.len(), 100);
    assert!(out.starts_with(&"0".repeat(100 - 8)));
}

#[test]
fn bit_string_matches_paint_value() {
    let p = bin8();
    assert_eq!(paint_bit_string(&p, "1").unwrap(), paint_value_u128(&p, 1).unwrap());
    assert_eq!(paint_bit_string(&p, "10").unwrap(), paint_value_u128(&p, 2).unwrap());
    assert_eq!(paint_bit_string(&p, "11").unwrap(), paint_value_u128(&p, 3).unwrap());
}

#[test]
fn bit_string_stream_spills_to_next_glyph() {
    let p = bin8();
    let s = "1".repeat(65);
    let glyphs = paint_bit_string_sequence(&p, &s, None).unwrap();
    assert_eq!(glyphs.len(), 2);
    for y in 0..8 {
        for x in 0..8 {
            assert_eq!(glyphs[0].get(x, y).unwrap(), 1, "g0 ({x},{y})");
        }
    }
    assert_eq!(glyphs[1].get(7, 7).unwrap(), 1);
    assert_eq!(value_u128(&p, &glyphs[1]).unwrap(), 1);
}

#[test]
fn bit_string_comma_separated() {
    let p = bin8();
    let glyphs = paint_bit_string_sequence(&p, "1, 11, 0", None).unwrap();
    assert_eq!(glyphs.len(), 3);
    assert_eq!(value_u128(&p, &glyphs[0]).unwrap(), 1);
    assert_eq!(value_u128(&p, &glyphs[1]).unwrap(), 3);
    assert!(glyphs[2].is_all_zero());
}

#[test]
fn bit_string_comma_each_field_truncates() {
    let p = bin8();
    let long = "1".repeat(70);
    let glyphs =
        paint_bit_string_sequence_with(&p, &format!("{long},1"), None, BitSequenceMode::CommaSeparated).unwrap();
    assert_eq!(glyphs.len(), 2);
    assert_eq!(value_u128(&p, &glyphs[0]).unwrap(), (1u128 << 64) - 1);
    assert_eq!(value_u128(&p, &glyphs[1]).unwrap(), 1);
}
