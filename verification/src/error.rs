//! Error values produced by profile validation, packing, rendering and the framed codec.

use vstd::prelude::*;

verus! {

/// Errors produced by profile validation, packing, or the framed codec.
#[derive(Debug, Clone, PartialEq, Eq)]
pub enum GlyphixError {
    InvalidProfile(String),
    ColorOutOfRange { index: u32, palette_size: u32 },
    GridSizeMismatch { got_w: u32, got_h: u32, want_w: u32, want_h: u32 },
    EmptyGlyphSequence,
    TruncatedStream { needed: usize, available: usize },
    PayloadTooLong { payload_len: u32, capacity_bytes: usize },
    GlyphCountExceeded { count: usize, cap: usize },
    UnsupportedVersion { got: u8, supported: &'static str },
    UnknownIntegrity { tag: u8 },
    UnknownEcc { tag: u8 },
    IntegrityMismatch { kind: &'static str },
    EccDecodeFailed(String),
    DirtyPadding,
    OutOfBounds { x: u32, y: u32, width: u32, height: u32 },
    InvalidRender(String),
    InvalidRaster(String),
    UnmappedColor { r: u8, g: u8, b: u8, palette_size: u32 },
    Io(String),
    InvalidBitString(String),
}

impl GlyphixError {
    /// Two errors agree when they are the same variant with equal fields, message
    /// strings compared by their text.
    pub open spec fn agrees(self, other: GlyphixError) -> bool {
        match (self, other) {
            (GlyphixError::InvalidProfile(a), GlyphixError::InvalidProfile(b)) => a@ == b@,
            (GlyphixError::EccDecodeFailed(a), GlyphixError::EccDecodeFailed(b)) => a@ == b@,
            (GlyphixError::InvalidRender(a), GlyphixError::InvalidRender(b)) => a@ == b@,
            (GlyphixError::InvalidRaster(a), GlyphixError::InvalidRaster(b)) => a@ == b@,
            (GlyphixError::Io(a), GlyphixError::Io(b)) => a@ == b@,
            (GlyphixError::InvalidBitString(a), GlyphixError::InvalidBitString(b)) => a@ == b@,
            (
                GlyphixError::UnsupportedVersion { got: a, supported: sa },
                GlyphixError::UnsupportedVersion { got: b, supported: sb },
            ) => a == b && sa@ == sb@,
            (GlyphixError::IntegrityMismatch { kind: a }, GlyphixError::IntegrityMismatch { kind: b }) => a@ == b@,
            _ => self == other,
        }
    }
}

/// A message string with the given text.
pub closed spec fn message(text: Seq<char>) -> String {
    choose|s: String| s@ == text
}

/// The message built from a string's text has that text.
pub broadcast proof fn lemma_message(s: String)
    ensures
        #[trigger] message(s@)@ == s@,
{
    assert(exists|t: String| #[trigger] t@ == s@) by {
        assert(s@ == s@);
    }
}

/// A computed result agrees with a specified one: equal values, or agreeing errors.
pub open spec fn result_agrees<T>(r: Result<T>, s: Result<T>) -> bool {
    match (r, s) {
        (Ok(a), Ok(b)) => a == b,
        (Err(e1), Err(e2)) => e1.agrees(e2),
        _ => false,
    }
}

/// A computed byte result agrees with a specified one.
pub open spec fn bytes_agree(r: Result<Vec<u8>>, s: Result<Seq<u8>>) -> bool {
    match (r, s) {
        (Ok(a), Ok(b)) => a@ == b,
        (Err(e1), Err(e2)) => e1.agrees(e2),
        _ => false,
    }
}

/// Convenient result alias.
pub type Result<T> = core::result::Result<T, GlyphixError>;

} // verus!
