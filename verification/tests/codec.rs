//! Framed codec: round trips, integrity trailers, Reed–Solomon bodies, sizing.

use glyphix::codec::{capacity_payload_bytes, capacity_payload_bytes_opts, decode, encode, encode_with, EncodeOptions};
use glyphix::ecc::Ecc;
use glyphix::grid::Grid;
use glyphix::pack::{bytes_to_bits, pack_glyph};
use glyphix::profile::{bin10, bin16, bin8, c8_8, CODEC_VERSION_V1};
use glyphix::{GlyphixError, Integrity};

#[test]
fn roundtrip_empty() {
    let p = bin8();
    let g = encode(&p, b"").unwrap();
    assert_eq!(g.len(), 1);
    assert_eq!(decode(&p, &g).unwrap(), b"");
}

#[test]
fn roundtrip_one_byte() {
    let p = bin8();
    let g = encode(&p, b"A").unwrap();
    assert_eq!(decode(&p, &g).unwrap(), b"A");
}

#[test]
fn roundtrip_32_and_1k() {
    let p = bin10();
    let a = vec![0x5Au8; 32];
    let b = vec![0x3Cu8; 1024];
    assert_eq!(decode(&p, &encode(&p, &a).unwrap()).unwrap(), a);
    assert_eq!(decode(&p, &encode(&p, &b).unwrap()).unwrap(), b);
}

#[test]
fn multi_color_roundtrip() {
    let p = c8_8();
    let data: Vec<u8> = (0..64).collect();
    assert_eq!(decode(&p, &encode(&p, &data).unwrap()).unwrap(), data);
}

#[test]
fn roundtrip_all_integrity_modes() {
    let p = bin10();
    let payload = b"integrity-roundtrip-payload";
    for integ in [Integrity::Off, Integrity::Crc32, Integrity::Blake3_128, Integrity::Blake3_256] {
        let g = encode_with(&p, payload, EncodeOptions::with_integrity(integ)).unwrap();
        assert_eq!(decode(&p, &g).unwrap(), payload, "{integ:?}");
    }
}

#[test]
fn roundtrip_rs_ecc() {
    let p = bin10();
    let payload: Vec<u8> = (0..80).map(|i| (i * 3) as u8).collect();
    for ecc in [Ecc::rs10(), Ecc::rs20()] {
        let g = encode_with(&p, &payload, EncodeOptions::with_ecc(ecc)).unwrap();
        assert_eq!(decode(&p, &g).unwrap(), payload, "{ecc:?}");
        let plain = encode(&p, &payload).unwrap();
        assert!(g.len() >= plain.len(), "ecc={ecc:?}");
    }
}

#[test]
fn rs_recovers_flipped_payload_bits() {
    let p = bin16();
    let payload = b"0123456789abcdef0123456789abcdef";
    let opts = EncodeOptions::with_integrity_and_ecc(Integrity::Crc32, Ecc::rs10());
    let mut glyphs = encode_with(&p, payload, opts).unwrap();
    for place in [60usize, 70, 80] {
        let (x, y) = Grid::coords_for_place(16, 16, place).unwrap();
        let v = glyphs[0].get(x, y).unwrap();
        glyphs[0].set(x, y, 1 - v).unwrap();
    }
    assert_eq!(decode(&p, &glyphs).unwrap(), payload);
}

#[test]
fn flip_pixel_fails_with_crc32() {
    let p = bin8();
    let payload = b"glyphix";
    let mut glyphs = encode_with(&p, payload, EncodeOptions::with_integrity(Integrity::Crc32)).unwrap();
    let v = glyphs[0].get(7, 7).unwrap();
    glyphs[0].set(7, 7, 1 - v).unwrap();
    assert!(decode(&p, &glyphs).is_err(), "expected decode error after pixel flip with CRC32");
}

#[test]
fn flip_pixel_fails_with_blake3() {
    let p = bin10();
    let payload = b"blake3-protected-payload!!";
    let mut glyphs = encode_with(&p, payload, EncodeOptions::with_integrity(Integrity::Blake3_256)).unwrap();
    let v = glyphs[0].get(0, 0).unwrap();
    glyphs[0].set(0, 0, 1 - v).unwrap();
    assert!(decode(&p, &glyphs).is_err());
}

#[test]
fn corrupt_payload_region_integrity_mismatch() {
    let p = bin16();
    let payload = b"0123456789abcdef";
    let mut glyphs = encode_with(&p, payload, EncodeOptions::with_integrity(Integrity::Crc32)).unwrap();
    assert_eq!(glyphs.len(), 1);
    let (x, y) = Grid::coords_for_place(16, 16, 50).unwrap();
    let v = glyphs[0].get(x, y).unwrap();
    glyphs[0].set(x, y, 1 - v).unwrap();
    let err = decode(&p, &glyphs).unwrap_err();
    assert!(
        matches!(err, GlyphixError::IntegrityMismatch { kind: "crc32" })
            || matches!(err, GlyphixError::DirtyPadding)
            || matches!(err, GlyphixError::PayloadTooLong { .. }),
        "unexpected error: {err:?}"
    );
    let mut glyphs2 = encode_with(&p, payload, EncodeOptions::with_integrity(Integrity::Crc32)).unwrap();
    let (x, y) = Grid::coords_for_place(16, 16, 176).unwrap();
    let v = glyphs2[0].get(x, y).unwrap();
    glyphs2[0].set(x, y, 1 - v).unwrap();
    assert!(matches!(decode(&p, &glyphs2), Err(GlyphixError::IntegrityMismatch { kind: "crc32" })));
}

#[test]
fn empty_sequence_errors() {
    let p = bin8();
    assert!(matches!(decode(&p, &[]), Err(GlyphixError::EmptyGlyphSequence)));
}

#[test]
fn v1_legacy_roundtrip_manual() {
    let p = bin8();
    let payload = b"v1";
    let mut frame = vec![CODEC_VERSION_V1];
    frame.extend_from_slice(&(payload.len() as u32).to_be_bytes());
    frame.extend_from_slice(payload);
    let mut bits = bytes_to_bits(&frame);
    let bpg = p.bits_per_glyph();
    let n = bits.len().div_ceil(bpg);
    bits.resize(n * bpg, false);
    let mut glyphs = Vec::new();
    for i in 0..n {
        glyphs.push(pack_glyph(&p, &bits, i * bpg).unwrap());
    }
    assert_eq!(decode(&p, &glyphs).unwrap(), payload);
}

#[test]
fn capacity_shrinks_with_ecc() {
    let p = bin10();
    let plain = capacity_payload_bytes(&p, 10);
    let with_rs = capacity_payload_bytes_opts(&p, 10, EncodeOptions::with_ecc(Ecc::rs10()));
    assert!(with_rs < plain);
    assert!(with_rs > 0);
}

#[test]
fn crc32_stable_empty() {
    assert_eq!(Integrity::Crc32.compute(b""), [0, 0, 0, 0]);
}

#[test]
fn crc32_known_vector() {
    let t = Integrity::Crc32.compute(b"123456789");
    assert_eq!(t, [0xCB, 0xF4, 0x39, 0x26]);
}

#[test]
fn blake3_lengths() {
    assert_eq!(Integrity::Blake3_128.compute(b"x").len(), 16);
    assert_eq!(Integrity::Blake3_256.compute(b"x").len(), 32);
    assert_eq!(Integrity::Off.compute(b"x").len(), 0);
}

#[test]
fn verify_rejects_flip() {
    let payload = b"hello";
    let mut t = Integrity::Crc32.compute(payload);
    t[0] ^= 1;
    assert!(matches!(Integrity::Crc32.verify(payload, &t), Err(GlyphixError::IntegrityMismatch { .. })));
}

#[test]
fn check_parse_names() {
    assert_eq!(Integrity::parse("crc32").unwrap(), Integrity::Crc32);
    assert_eq!(Integrity::parse("blake3").unwrap(), Integrity::Blake3_256);
    assert_eq!(Integrity::parse("none").unwrap(), Integrity::Off);
}

#[test]
fn rs_roundtrip_and_correct() {
    let ecc = Ecc::rs10();
    let payload: Vec<u8> = (0..200).map(|i| i as u8).collect();
    let mut coded = ecc.encode_body(&payload).unwrap();
    assert!(coded.len() > payload.len());
    coded[0] ^= 0xFF;
    coded[3] ^= 0x55;
    coded[7] ^= 0x0F;
    let recovered = ecc.decode_body(&coded, payload.len()).unwrap();
    assert_eq!(recovered, payload);
}

#[test]
fn none_is_identity() {
    let p = b"hello";
    assert_eq!(Ecc::Off.encode_body(p).unwrap(), p);
    assert_eq!(Ecc::Off.decode_body(p, 5).unwrap(), p);
}

#[test]
fn coded_len_matches_encode() {
    let ecc = Ecc::rs20();
    for n in [0usize, 1, 10, 229, 230, 500] {
        let data = vec![0xABu8; n];
        let coded = ecc.encode_body(&data).unwrap();
        assert_eq!(coded.len(), ecc.coded_len(n), "n={n}");
    }
}

#[test]
fn max_payload_for_body_fits() {
    let ecc = Ecc::rs10();
    let budget = 500;
    let n = ecc.max_payload_for_body(budget);
    assert!(ecc.coded_len(n) <= budget);
    if n + 1 > 0 {
        assert!(ecc.coded_len(n + 1) > budget || n == budget);
    }
}

#[test]
fn ecc_parse_names() {
    assert_eq!(Ecc::parse("rs10").unwrap(), Ecc::rs10());
    assert_eq!(Ecc::parse("none").unwrap(), Ecc::Off);
    assert_eq!(Ecc::parse("rs:12").unwrap().tag(), 12);
}
