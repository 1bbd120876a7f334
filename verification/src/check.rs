//! Optional payload integrity trailers.
//!
//! These provide **error detection**, not authentication.
//!
//! | Variant | Trailer size | Notes |
//! |---------|-------------:|-------|
//! | `Off` | 0 | No trailer |
//! | `Crc32` | 4 | IEEE CRC-32, big-endian |
//! | `Blake3_128` | 16 | First 16 bytes of BLAKE3-256 |
//! | `Blake3_256` | 32 | Full BLAKE3 digest |

use vstd::prelude::*;
use crate::error::{message, GlyphixError, Result};
use crate::strings::{ascii_lower, lower_chars, chars_is, push_lowercase};

verus! {

broadcast use crate::error::lemma_message;

/// IEEE CRC-32 of a byte sequence, as computed by `crc32fast::hash`.
pub uninterp spec fn crc32_ieee(data: Seq<u8>) -> u32;

/// Byte `i` of the 32-byte BLAKE3 digest of a byte sequence, as computed by `blake3::hash`.
pub uninterp spec fn blake3_digest_byte(data: Seq<u8>, i: int) -> u8;

/// The 32-byte BLAKE3 digest of a byte sequence.
pub open spec fn blake3_digest(data: Seq<u8>) -> Seq<u8> {
    Seq::new(32, |i: int| blake3_digest_byte(data, i))
}

/// Calls `crc32fast::hash`; its result is named `crc32_ieee` of the input bytes.
#[verifier::external_body]
fn crc32_hash(data: &[u8]) -> (c: u32)
    ensures
        c == crc32_ieee(data@),
{
    crc32fast::hash(data)
}

/// Calls `blake3::hash` and copies out the digest bytes: `as_bytes` returns
/// `&[u8; OUT_LEN]` with `OUT_LEN = 32`; each byte is named `blake3_digest_byte`
/// of the input bytes and its index.
#[verifier::external_body]
fn blake3_hash(data: &[u8]) -> (d: Vec<u8>)
    ensures
        d@.len() == 32,
        forall|i: int| 0 <= i < 32 ==> d@[i] == blake3_digest_byte(data@, i),
{
    blake3::hash(data).as_bytes().to_vec()
}

/// Big-endian bytes of a `u32`.
pub open spec fn be_bytes_u32(v: u32) -> Seq<u8> {
    seq![
        (v / 0x0100_0000) as u8,
        ((v / 0x1_0000) % 256) as u8,
        ((v / 256) % 256) as u8,
        (v % 256) as u8,
    ]
}

/// The `u32` written big-endian by four bytes.
pub open spec fn be_u32(b: Seq<u8>) -> u32 {
    (b[0] * 0x0100_0000 + b[1] * 0x1_0000 + b[2] * 256 + b[3]) as u32
}

pub proof fn lemma_be_u32_roundtrip(v: u32)
    ensures
        be_bytes_u32(v).len() == 4,
        be_u32(be_bytes_u32(v)) == v,
{
    let b = be_bytes_u32(v);
    assert(b[0] * 0x0100_0000 + b[1] * 0x1_0000 + b[2] * 256 + b[3] == v) by (nonlinear_arith)
        requires
            b[0] == v / 0x0100_0000,
            b[1] == (v / 0x1_0000) % 256,
            b[2] == (v / 256) % 256,
            b[3] == v % 256,
            v <= 0xffff_ffff,
    ;
}

/// Big-endian bytes of a `u32`.
pub fn u32_to_be(v: u32) -> (b: [u8; 4])
    ensures
        b@ == be_bytes_u32(v),
{
    let b = [(v / 0x0100_0000) as u8, ((v / 0x1_0000) % 256) as u8, ((v / 256) % 256) as u8, (v % 256) as u8];
    assert(b@ =~= be_bytes_u32(v));
    b
}

/// The `u32` from four big-endian bytes.
pub fn u32_from_be(b: &[u8]) -> (v: u32)
    requires
        b@.len() >= 4,
    ensures
        v == be_u32(b@),
{
    let v = b[0] as u64 * 0x0100_0000 + b[1] as u64 * 0x1_0000 + b[2] as u64 * 256 + b[3] as u64;
    v as u32
}

/// Integrity algorithm tagged in the frame and appended after the payload.
#[derive(Debug, Clone, Copy, PartialEq, Eq, Hash, Default, Structural)]
#[non_exhaustive]
pub enum Integrity {
    /// No trailer (still writes integrity tag `0`).
    #[default]
    Off,
    /// IEEE CRC-32 over payload bytes (4-byte BE trailer).
    Crc32,
    /// BLAKE3 truncated to 128 bits (16-byte trailer).
    Blake3_128,
    /// Full BLAKE3-256 (32-byte trailer).
    Blake3_256,
}

/// Integrity for a wire tag.
pub open spec fn integrity_of_tag(tag: u8) -> Option<Integrity> {
    if tag == 0 {
        Some(Integrity::Off)
    } else if tag == 1 {
        Some(Integrity::Crc32)
    } else if tag == 2 {
        Some(Integrity::Blake3_128)
    } else if tag == 3 {
        Some(Integrity::Blake3_256)
    } else {
        None
    }
}

/// Integrity for a (lower-cased) name.
pub open spec fn integrity_of_name(l: Seq<char>) -> Option<Integrity> {
    if l == "none"@ || l == "off"@ || l == "0"@ {
        Some(Integrity::Off)
    } else if l == "crc32"@ || l == "crc"@ {
        Some(Integrity::Crc32)
    } else if l == "blake3-128"@ || l == "blake3_128"@ || l == "b3-128"@ {
        Some(Integrity::Blake3_128)
    } else if l == "blake3-256"@ || l == "blake3"@ || l == "blake3_256"@ || l == "b3-256"@ || l == "b3"@ {
        Some(Integrity::Blake3_256)
    } else {
        None
    }
}

impl Integrity {
    /// Wire tag stored in the frame.
    pub open spec fn tag_spec(self) -> u8 {
        match self {
            Integrity::Off => 0,
            Integrity::Crc32 => 1,
            Integrity::Blake3_128 => 2,
            Integrity::Blake3_256 => 3,
        }
    }

    /// Trailer length in bytes.
    pub open spec fn trailer_len_spec(self) -> nat {
        match self {
            Integrity::Off => 0,
            Integrity::Crc32 => 4,
            Integrity::Blake3_128 => 16,
            Integrity::Blake3_256 => 32,
        }
    }

    /// Short name.
    pub open spec fn name_spec(self) -> &'static str {
        match self {
            Integrity::Off => "none",
            Integrity::Crc32 => "crc32",
            Integrity::Blake3_128 => "blake3-128",
            Integrity::Blake3_256 => "blake3-256",
        }
    }

    /// Name of the scheme in error messages; the scheme without a trailer is
    /// `None` there.
    pub open spec fn message_name_spec(self) -> &'static str {
        match self {
            Integrity::Off => "None",
            Integrity::Crc32 => "Crc32",
            Integrity::Blake3_128 => "Blake3_128",
            Integrity::Blake3_256 => "Blake3_256",
        }
    }

    /// The trailer written after `payload`.
    pub open spec fn trailer_spec(self, payload: Seq<u8>) -> Seq<u8> {
        match self {
            Integrity::Off => Seq::empty(),
            Integrity::Crc32 => be_bytes_u32(crc32_ieee(payload)),
            Integrity::Blake3_128 => blake3_digest(payload).take(16),
            Integrity::Blake3_256 => blake3_digest(payload),
        }
    }

    /// Wire tag stored in the frame (`0..=3`).
    pub fn tag(self) -> (t: u8)
        ensures
            t == self.tag_spec(),
            integrity_of_tag(t) == Some(self),
    {
        match self {
            Integrity::Off => 0,
            Integrity::Crc32 => 1,
            Integrity::Blake3_128 => 2,
            Integrity::Blake3_256 => 3,
        }
    }

    /// Parse a wire tag from the frame.
    pub fn from_tag(tag: u8) -> (r: Result<Self>)
        ensures
            r is Ok <==> integrity_of_tag(tag) is Some,
            r matches Ok(i) ==> integrity_of_tag(tag) == Some(i),
            r matches Err(e) ==> e == (GlyphixError::UnknownIntegrity { tag }),
    {
        match tag {
            0 => Ok(Integrity::Off),
            1 => Ok(Integrity::Crc32),
            2 => Ok(Integrity::Blake3_128),
            3 => Ok(Integrity::Blake3_256),
            other => Err(GlyphixError::UnknownIntegrity { tag: other }),
        }
    }

    /// Trailer length in bytes.
    pub fn trailer_len(self) -> (n: usize)
        ensures
            n == self.trailer_len_spec(),
    {
        match self {
            Integrity::Off => 0,
            Integrity::Crc32 => 4,
            Integrity::Blake3_128 => 16,
            Integrity::Blake3_256 => 32,
        }
    }

    /// Short name for CLI / logs.
    pub fn as_str(self) -> (s: &'static str)
        ensures
            s == self.name_spec(),
    {
        match self {
            Integrity::Off => "none",
            Integrity::Crc32 => "crc32",
            Integrity::Blake3_128 => "blake3-128",
            Integrity::Blake3_256 => "blake3-256",
        }
    }

    /// Name of the scheme in error messages.
    pub fn message_name(self) -> (s: &'static str)
        ensures
            s == self.message_name_spec(),
    {
        match self {
            Integrity::Off => "None",
            Integrity::Crc32 => "Crc32",
            Integrity::Blake3_128 => "Blake3_128",
            Integrity::Blake3_256 => "Blake3_256",
        }
    }

    /// Parse from a CLI-style name (ASCII case-insensitive).
    pub fn parse(s: &str) -> (r: Result<Self>)
        ensures
            r is Ok <==> integrity_of_name(ascii_lower(s@)) is Some,
            r matches Ok(i) ==> integrity_of_name(ascii_lower(s@)) == Some(i),
            r matches Err(e) ==> e.agrees(GlyphixError::InvalidProfile(message(
                "unknown integrity `"@ + ascii_lower(s@) + "`; try none, crc32, blake3-128, blake3-256"@,
            ))),
    {
        let l = lower_chars(s);
        if chars_is(&l, "none") || chars_is(&l, "off") || chars_is(&l, "0") {
            Ok(Integrity::Off)
        } else if chars_is(&l, "crc32") || chars_is(&l, "crc") {
            Ok(Integrity::Crc32)
        } else if chars_is(&l, "blake3-128") || chars_is(&l, "blake3_128") || chars_is(&l, "b3-128") {
            Ok(Integrity::Blake3_128)
        } else if chars_is(&l, "blake3-256") || chars_is(&l, "blake3") || chars_is(&l, "blake3_256")
            || chars_is(&l, "b3-256") || chars_is(&l, "b3") {
            Ok(Integrity::Blake3_256)
        } else {
            let mut msg = "unknown integrity `".to_string();
            push_lowercase(&mut msg, s);
            msg.append("`; try none, crc32, blake3-128, blake3-256");
            Err(GlyphixError::InvalidProfile(msg))
        }
    }

    /// Compute the trailer for `payload` (empty for `None`).
    pub fn compute(self, payload: &[u8]) -> (t: Vec<u8>)
        ensures
            t@ == self.trailer_spec(payload@),
            t@.len() == self.trailer_len_spec(),
    {
        match self {
            Integrity::Off => Vec::new(),
            Integrity::Crc32 => {
                let c = crc32_hash(payload);
                let b = u32_to_be(c);
                let mut v: Vec<u8> = Vec::new();
                v.push(b[0]);
                v.push(b[1]);
                v.push(b[2]);
                v.push(b[3]);
                assert(v@ =~= be_bytes_u32(c));
                v
            },
            Integrity::Blake3_128 => {
                let mut d = blake3_hash(payload);
                assert(d@ =~= blake3_digest(payload@));
                d.truncate(16);
                d
            },
            Integrity::Blake3_256 => {
                let d = blake3_hash(payload);
                assert(d@ =~= blake3_digest(payload@));
                d
            },
        }
    }

    /// Verify `trailer` against `payload`.
    pub fn verify(self, payload: &[u8], trailer: &[u8]) -> (r: Result<()>)
        ensures
            r is Ok <==> trailer@ == self.trailer_spec(payload@),
            r matches Err(e) ==> e == (GlyphixError::IntegrityMismatch { kind: self.name_spec() }),
    {
        let expected = self.compute(payload);
        if trailer.len() != expected.len() {
            return Err(GlyphixError::IntegrityMismatch { kind: self.as_str() });
        }
        let mut i: usize = 0;
        while i < trailer.len()
            invariant
                i <= trailer@.len(),
                trailer@.len() == expected@.len(),
                expected@ == self.trailer_spec(payload@),
                forall|j: int| 0 <= j < i ==> trailer@[j] == expected@[j],
            decreases trailer@.len() - i,
        {
            if trailer[i] != expected[i] {
                assert(trailer@[i as int] != expected@[i as int]);
                return Err(GlyphixError::IntegrityMismatch { kind: self.as_str() });
            }
            i = i + 1;
        }
        assert(trailer@ =~= expected@);
        Ok(())
    }
}

/// Every integrity mode reads back from its wire tag and from its name.
pub proof fn lemma_integrity_names(i: Integrity)
    ensures
        integrity_of_tag(i.tag_spec()) == Some(i),
        integrity_of_name(ascii_lower(i.name_spec()@)) == Some(i),
{
    reveal_strlit("none");
    reveal_strlit("crc32");
    reveal_strlit("blake3-128");
    reveal_strlit("blake3-256");
    reveal_strlit("off");
    reveal_strlit("0");
    reveal_strlit("crc");
    reveal_strlit("blake3_128");
    reveal_strlit("b3-128");
    reveal_strlit("blake3");
    reveal_strlit("blake3_256");
    reveal_strlit("b3-256");
    reveal_strlit("b3");
    let n = i.name_spec()@;
    assert(ascii_lower(n) =~= n);
    match i {
        Integrity::Off => {},
        Integrity::Crc32 => {
            assert(n != "none"@ && n != "off"@ && n != "0"@);
        },
        Integrity::Blake3_128 => {
            assert(n != "none"@ && n != "off"@ && n != "0"@);
            assert(n != "crc32"@ && n != "crc"@);
        },
        Integrity::Blake3_256 => {
            assert(n != "none"@ && n != "off"@ && n != "0"@);
            assert(n != "crc32"@ && n != "crc"@);
            assert(n[8] == '5' && "blake3-128"@[8] == '2');
            assert(n != "blake3-128"@);
            assert(n[6] == '-' && "blake3_128"@[6] == '_');
            assert(n != "blake3_128"@);
            assert(n != "b3-128"@);
        },
    }
}

} // verus!
