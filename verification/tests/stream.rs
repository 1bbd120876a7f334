//! Chunked framing, streaming encoder, batches and capacity reports.

use glyphix::capacity::report;
use glyphix::codec::{encode_with, EncodeOptions};
use glyphix::profile::{bin10, bin8};
use glyphix::stream::{decode_chunked, encode_chunked, glyph_batches, ChunkEncoder};
use glyphix::Integrity;

#[test]
fn chunked_roundtrip_large() {
    let p = bin8();
    let data: Vec<u8> = (0..500).map(|i| i as u8).collect();
    let frames = encode_chunked(&p, &data, EncodeOptions::with_integrity(Integrity::Crc32), 4).unwrap();
    assert!(frames.len() > 1);
    for f in &frames {
        assert!(f.len() <= 4);
    }
    assert_eq!(decode_chunked(&p, &frames).unwrap(), data);
}

#[test]
fn chunked_empty() {
    let p = bin10();
    let frames = encode_chunked(&p, b"", EncodeOptions::default(), 2).unwrap();
    assert_eq!(frames.len(), 1);
    assert_eq!(decode_chunked(&p, &frames).unwrap(), b"");
}

#[test]
fn streaming_encoder() {
    let p = bin8();
    let mut enc = ChunkEncoder::new(p, EncodeOptions::default(), 3).unwrap();
    let cap = enc.chunk_capacity();
    let mut all_frames = Vec::new();
    all_frames.extend(enc.push(&vec![0xABu8; cap + 10]).unwrap());
    if let Some(f) = enc.finish().unwrap() {
        all_frames.push(f);
    }
    let out = decode_chunked(&p, &all_frames).unwrap();
    assert_eq!(out, vec![0xABu8; cap + 10]);
}

#[test]
fn glyph_batches_split() {
    let p = bin8();
    let g = encode_with(&p, b"hello world!!!!", EncodeOptions::default()).unwrap();
    let batches = glyph_batches(&g, 2).unwrap();
    assert!(!batches.is_empty());
    assert!(batches.iter().all(|b| b.len() <= 2));
}

#[test]
fn bin10_ten_glyphs() {
    let p = bin10();
    let r = report("bin10", &p, 10, Integrity::Off, 1).unwrap();
    assert_eq!(r.bits_per_glyph, 100);
    assert_eq!(r.total_bits, 1000);
    assert_eq!(r.payload_bytes, 119);
    assert_eq!((r.image_w, r.image_h), (100, 10));
}
