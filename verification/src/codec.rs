//! Framed encode / decode: bytes ↔ sequence of grids.
//!
//! Version 3 (when ECC is enabled): `version=3 | integrity | ecc | u32 BE length |
//! coded body | trailer | zero padding`.
//! Version 2 (default): `version=2 | integrity | u32 BE length | payload | trailer |
//! zero padding`.
//! Version 1 (decode only): `version=1 | u32 BE length | payload | zero padding`.
//!
//! Glyphs are filled with **low places first** (see the pack module).

use vstd::prelude::*;
use crate::check::{Integrity, integrity_of_tag, be_bytes_u32, be_u32, lemma_be_u32_roundtrip, u32_from_be};
use crate::digits::{
    bytes_to_bits_spec, bits_to_bytes_spec, lemma_decode_bytes_window,
    lemma_bits_value_bound,
};
use crate::ecc::{Ecc, ecc_of_tag};
use crate::error::{lemma_message, message, GlyphixError, Result, bytes_agree};
use crate::grid::{Grid, GridView, profile_check, views, glyphs_agree};
use crate::pack::{
    bits_to_bytes, bytes_to_bits, pack_glyph, unpack_glyph, glyph_from_stream, glyphs_from_bits,
    stream_of_glyphs, lemma_glyphs_stream_roundtrip, lemma_stream_of_glyphs_push,
    lemma_digit_window,
};
use crate::profile::{GlyphProfile, CODEC_VERSION_V1, CODEC_VERSION_V2, CODEC_VERSION};

verus! {

/// Options for [`encode_with`].
#[derive(Debug, Clone, Copy, PartialEq, Eq, Default, Structural)]
pub struct EncodeOptions {
    /// Payload integrity trailer (default: none).
    pub integrity: Integrity,
    /// Optional Reed–Solomon over the payload body (default: none).
    pub ecc: Ecc,
}

impl EncodeOptions {
    /// Options the public constructors produce.
    pub open spec fn wf(self) -> bool {
        self.ecc.wf()
    }

    /// Encode with a specific integrity algorithm.
    pub fn with_integrity(integrity: Integrity) -> (o: Self)
        ensures
            o == (EncodeOptions { integrity, ecc: Ecc::Off }),
    {
        EncodeOptions { integrity, ecc: Ecc::Off }
    }

    /// Encode with integrity and ECC.
    pub fn with_integrity_and_ecc(integrity: Integrity, ecc: Ecc) -> (o: Self)
        ensures
            o == (EncodeOptions { integrity, ecc }),
    {
        EncodeOptions { integrity, ecc }
    }

    /// Encode with ECC only.
    pub fn with_ecc(ecc: Ecc) -> (o: Self)
        ensures
            o == (EncodeOptions { integrity: Integrity::Off, ecc }),
    {
        EncodeOptions { integrity: Integrity::Off, ecc }
    }
}

/// Fixed header bits for version-2 frames: version + integrity + u32 length.
pub const V2_HEADER_BITS: usize = 48;

/// Fixed header bits for version-3 frames: version + integrity + ecc + u32 length.
pub const V3_HEADER_BITS: usize = 56;

/// Fixed header bits for version-1 frames: version + u32 length.
pub const V1_HEADER_BITS: usize = 40;

// ----------------------------------------------------------------------------------
// Specification of the frame
// ----------------------------------------------------------------------------------

/// Header and trailer bits of the frame written with `o`.
pub open spec fn overhead_spec(o: EncodeOptions) -> nat {
    (if o.ecc is Off { 48nat } else { 56nat }) + 8 * o.integrity.trailer_len_spec()
}

/// Bits of the whole frame for a payload of `len` bytes.
pub open spec fn need_bits_spec(len: nat, o: EncodeOptions) -> nat {
    overhead_spec(o) + 8 * o.ecc.coded_len_spec(len)
}

/// `ceil(a / b)`.
pub open spec fn ceil_div(a: nat, b: nat) -> nat {
    if a == 0 || b == 0 {
        0
    } else {
        ((a - 1) / (b as int) + 1) as nat
    }
}

/// Glyphs needed for a framed payload of `len` bytes.
pub open spec fn glyphs_needed_spec(p: GlyphProfile, len: nat, o: EncodeOptions) -> nat {
    ceil_div(need_bits_spec(len, o), p.bpg())
}

/// Result of the glyph-count computation.
pub open spec fn glyphs_needed_result(p: GlyphProfile, len: nat, o: EncodeOptions) -> Result<usize> {
    let n = glyphs_needed_spec(p, len, o);
    if n > p.max_glyphs {
        Err(GlyphixError::GlyphCountExceeded { count: n as usize, cap: p.max_glyphs })
    } else {
        Ok(n as usize)
    }
}

/// The arithmetic of frame sizing fits the machine word.
pub open spec fn frame_fits(p: GlyphProfile, len: nat, o: EncodeOptions) -> bool {
    need_bits_spec(len, o) + p.bpg() <= usize::MAX
}

/// The frame header.
pub open spec fn header_spec(len: nat, o: EncodeOptions) -> Seq<u8> {
    if o.ecc is Off {
        seq![CODEC_VERSION_V2, o.integrity.tag_spec()] + be_bytes_u32(len as u32)
    } else {
        seq![CODEC_VERSION, o.integrity.tag_spec(), o.ecc.tag_spec()] + be_bytes_u32(len as u32)
    }
}

/// The frame bytes: header, coded body, integrity trailer.
pub open spec fn frame_spec(payload: Seq<u8>, o: EncodeOptions) -> Seq<u8> {
    header_spec(payload.len(), o) + o.ecc.body_spec(payload) + o.integrity.trailer_spec(payload)
}

/// `n` zero bits.
pub open spec fn zero_bits(n: nat) -> Seq<bool> {
    Seq::new(n, |i: int| false)
}

/// `bits` padded with zero bits to `total`.
pub open spec fn pad_bits(bits: Seq<bool>, total: nat) -> Seq<bool> {
    bits + zero_bits((total - bits.len()) as nat)
}

/// The glyphs `encode_with` produces.
pub open spec fn encode_spec(p: GlyphProfile, payload: Seq<u8>, o: EncodeOptions) -> Result<Seq<GridView>> {
    if payload.len() > u32::MAX {
        Err(GlyphixError::InvalidProfile(message("payload longer than u32::MAX"@)))
    } else {
        let n = glyphs_needed_spec(p, payload.len(), o);
        if n > p.max_glyphs {
            Err(GlyphixError::GlyphCountExceeded { count: n as usize, cap: p.max_glyphs })
        } else {
            Ok(glyphs_from_bits(p, pad_bits(bytes_to_bits_spec(frame_spec(payload, o)), n * p.bpg()), n))
        }
    }
}

/// `bits` is the frame of `payload` under `o`, followed by zero bits.
pub open spec fn frames_to(bits: Seq<bool>, payload: Seq<u8>, o: EncodeOptions) -> bool {
    let f = frame_spec(payload, o);
    &&& o.wf()
    &&& payload.len() <= u32::MAX
    &&& 8 * f.len() <= bits.len()
    &&& bits == bytes_to_bits_spec(f) + zero_bits((bits.len() - 8 * f.len()) as nat)
}

// ----------------------------------------------------------------------------------
// Specification of decoding
// ----------------------------------------------------------------------------------

/// Bytes read from bit positions `lo .. hi`.
pub open spec fn bytes_at(bits: Seq<bool>, lo: int, hi: int) -> Seq<u8> {
    bits_to_bytes_spec(bits.subrange(lo, hi))
}

/// No set bit at or after `from`.
pub open spec fn clean_after(bits: Seq<bool>, from: int) -> bool {
    forall|i: int| from <= i < bits.len() ==> !bits[i]
}

/// `a - b` clamped at zero.
pub open spec fn sat_sub(a: nat, b: nat) -> nat {
    if a >= b {
        (a - b) as nat
    } else {
        0
    }
}

/// Version 1 decoding.
pub open spec fn decode_v1_spec(bits: Seq<bool>) -> Result<Seq<u8>> {
    if bits.len() < 40 {
        Err(GlyphixError::TruncatedStream { needed: 40, available: bits.len() as usize })
    } else {
        let header = bytes_at(bits, 0, 40);
        let plen = be_u32(header.subrange(1, 5)) as nat;
        let end: int = (40 + 8 * plen) as int;
        if end > bits.len() {
            Err(GlyphixError::PayloadTooLong {
                payload_len: plen as u32,
                capacity_bytes: (sat_sub(bits.len(), 40) / 8) as usize,
            })
        } else if !clean_after(bits, end) {
            Err(GlyphixError::DirtyPadding)
        } else {
            Ok(bytes_at(bits, 40, end))
        }
    }
}

/// Version 2 decoding.
pub open spec fn decode_v2_spec(bits: Seq<bool>) -> Result<Seq<u8>> {
    if bits.len() < 48 {
        Err(GlyphixError::TruncatedStream { needed: 48, available: bits.len() as usize })
    } else {
        let header = bytes_at(bits, 0, 48);
        match integrity_of_tag(header[1]) {
            None => Err(GlyphixError::UnknownIntegrity { tag: header[1] }),
            Some(integ) => {
                let plen = be_u32(header.subrange(2, 6)) as nat;
                let tl = integ.trailer_len_spec();
                let pend: int = (48 + 8 * plen) as int;
                let tend: int = pend + 8 * tl;
                if tend > bits.len() {
                    Err(GlyphixError::PayloadTooLong {
                        payload_len: plen as u32,
                        capacity_bytes: (sat_sub(bits.len(), 48 + 8 * tl) / 8) as usize,
                    })
                } else if !clean_after(bits, tend) {
                    Err(GlyphixError::DirtyPadding)
                } else {
                    let payload = bytes_at(bits, 48, pend);
                    let trailer = bytes_at(bits, pend, tend);
                    if trailer == integ.trailer_spec(payload) {
                        Ok(payload)
                    } else {
                        Err(GlyphixError::IntegrityMismatch { kind: integ.name_spec() })
                    }
                }
            },
        }
    }
}

/// Version 3 decoding.
pub open spec fn decode_v3_spec(bits: Seq<bool>) -> Result<Seq<u8>> {
    if bits.len() < 56 {
        Err(GlyphixError::TruncatedStream { needed: 56, available: bits.len() as usize })
    } else {
        let header = bytes_at(bits, 0, 56);
        match integrity_of_tag(header[1]) {
            None => Err(GlyphixError::UnknownIntegrity { tag: header[1] }),
            Some(integ) => match ecc_of_tag(header[2]) {
                None => Err(GlyphixError::UnknownEcc { tag: header[2] }),
                Some(ecc) => {
                    let plen = be_u32(header.subrange(3, 7)) as nat;
                    let tl = integ.trailer_len_spec();
                    let clen = ecc.coded_len_spec(plen);
                    let bend: int = (56 + 8 * clen) as int;
                    let tend: int = bend + 8 * tl;
                    if tend > bits.len() {
                        Err(GlyphixError::PayloadTooLong {
                            payload_len: plen as u32,
                            capacity_bytes: (sat_sub(bits.len(), 56 + 8 * tl) / 8) as usize,
                        })
                    } else if !clean_after(bits, tend) {
                        Err(GlyphixError::DirtyPadding)
                    } else {
                        match ecc.decode_body_spec(bytes_at(bits, 56, bend), plen) {
                            Err(e) => Err(e),
                            Ok(payload) => {
                                let trailer = bytes_at(bits, bend, tend);
                                if trailer == integ.trailer_spec(payload) {
                                    Ok(payload)
                                } else {
                                    Err(GlyphixError::IntegrityMismatch { kind: integ.name_spec() })
                                }
                            },
                        }
                    }
                },
            },
        }
    }
}

/// Decoding of an unpacked bit stream.
pub open spec fn decode_bits_spec(bits: Seq<bool>) -> Result<Seq<u8>> {
    if bits.len() < 8 {
        Err(GlyphixError::TruncatedStream { needed: 8, available: bits.len() as usize })
    } else {
        let version = bytes_at(bits, 0, 8)[0];
        if version == CODEC_VERSION_V1 {
            decode_v1_spec(bits)
        } else if version == CODEC_VERSION_V2 {
            decode_v2_spec(bits)
        } else if version == CODEC_VERSION {
            decode_v3_spec(bits)
        } else {
            Err(GlyphixError::UnsupportedVersion { got: version, supported: "1, 2, 3" })
        }
    }
}

/// First glyph that does not fit the profile, reported as an error.
pub open spec fn glyphs_check(p: GlyphProfile, gs: Seq<GridView>) -> Result<()>
    decreases gs.len(),
{
    if gs.len() == 0 {
        Ok(())
    } else {
        match profile_check(gs[0], p) {
            Err(e) => Err(e),
            Ok(_) => glyphs_check(p, gs.drop_first()),
        }
    }
}

/// Decoding of a glyph sequence.
pub open spec fn decode_spec(p: GlyphProfile, gs: Seq<GridView>) -> Result<Seq<u8>> {
    if gs.len() == 0 {
        Err(GlyphixError::EmptyGlyphSequence)
    } else if gs.len() > p.max_glyphs {
        Err(GlyphixError::GlyphCountExceeded { count: gs.len() as usize, cap: p.max_glyphs })
    } else {
        match glyphs_check(p, gs) {
            Err(e) => Err(e),
            Ok(_) => decode_bits_spec(stream_of_glyphs(p, gs)),
        }
    }
}


// ----------------------------------------------------------------------------------
// Frame lemmas
// ----------------------------------------------------------------------------------

pub proof fn lemma_frame_len(payload: Seq<u8>, o: EncodeOptions)
    ensures
        frame_spec(payload, o).len() * 8 == need_bits_spec(payload.len(), o),
        header_spec(payload.len(), o).len() == (if o.ecc is Off { 6nat } else { 7nat }),
{
    o.ecc.lemma_body_len(payload);
    let l = payload.len() as u32;
    lemma_be_u32_roundtrip(l);
}

/// Where the parts of a frame sit in its padded bit stream, and what they decode to.
pub proof fn lemma_frame_fields(bits: Seq<bool>, payload: Seq<u8>, o: EncodeOptions)
    requires
        frames_to(bits, payload, o),
    ensures
        ({
            let f = frame_spec(payload, o);
            let h = if o.ecc is Off { 6int } else { 7int };
            let clen = o.ecc.coded_len_spec(payload.len()) as int;
            let tl = o.integrity.trailer_len_spec() as int;
            &&& f.len() == h + clen + tl
            &&& bits.len() >= 8 * f.len()
            &&& bytes_at(bits, 0, 8 * h) == header_spec(payload.len(), o)
            &&& bytes_at(bits, 0, 8)[0] == (if o.ecc is Off { CODEC_VERSION_V2 } else { CODEC_VERSION })
            &&& bytes_at(bits, 8 * h, 8 * (h + clen)) == o.ecc.body_spec(payload)
            &&& bytes_at(bits, 8 * (h + clen), 8 * f.len() as int) == o.integrity.trailer_spec(payload)
            &&& clean_after(bits, 8 * f.len() as int)
        }),
{
    let f = frame_spec(payload, o);
    let hd = header_spec(payload.len(), o);
    let body = o.ecc.body_spec(payload);
    let tr = o.integrity.trailer_spec(payload);
    lemma_frame_len(payload, o);
    let h = hd.len() as int;
    let clen = body.len() as int;
    o.ecc.lemma_body_len(payload);
    let tail = zero_bits((bits.len() - 8 * f.len()) as nat);
    assert(f.len() == h + clen + tr.len());
    lemma_decode_bytes_window(f, tail, 0, h);
    assert(f.subrange(0, h) =~= hd);
    lemma_decode_bytes_window(f, tail, 0, 1);
    assert(f.subrange(0, 1) =~= seq![hd[0]]);
    lemma_decode_bytes_window(f, tail, h, h + clen);
    assert(f.subrange(h, h + clen) =~= body);
    lemma_decode_bytes_window(f, tail, h + clen, f.len() as int);
    assert(f.subrange(h + clen, f.len() as int) =~= tr);
    assert forall|i: int| 8 * f.len() <= i < bits.len() implies !bits[i] by {
        assert(bits[i] == tail[i - 8 * f.len()]);
    }
}

/// Decoding a version-2 frame gives the payload back.
#[verifier::spinoff_prover]
#[verifier::rlimit(100)]
pub proof fn lemma_v2_roundtrip(bits: Seq<bool>, payload: Seq<u8>, o: EncodeOptions)
    requires
        frames_to(bits, payload, o),
        o.ecc is Off,
    ensures
        decode_bits_spec(bits) == Ok::<Seq<u8>, GlyphixError>(payload),
{
    lemma_frame_fields(bits, payload, o);
    let f = frame_spec(payload, o);
    let hd = header_spec(payload.len(), o);
    let plen = payload.len();
    let tl = o.integrity.trailer_len_spec();
    lemma_be_u32_roundtrip(plen as u32);
    assert(o.ecc.coded_len_spec(plen) == plen);
    assert(f.len() == 6 + plen + tl);
    assert(bytes_at(bits, 0, 8)[0] == CODEC_VERSION_V2);
    let header = bytes_at(bits, 0, 48);
    assert(header == hd);
    assert(hd.subrange(2, 6) =~= be_bytes_u32(plen as u32));
    assert(be_u32(header.subrange(2, 6)) == plen);
    assert(hd[1] == o.integrity.tag_spec());
    assert(integrity_of_tag(header[1]) == Some(o.integrity));
    let pend: int = (48 + 8 * plen) as int;
    let tend: int = pend + 8 * tl;
    assert(tend == 8 * f.len());
    assert(bytes_at(bits, 48, pend) == payload);
    assert(bytes_at(bits, pend, tend) == o.integrity.trailer_spec(payload));
    assert(decode_v2_spec(bits) == Ok::<Seq<u8>, GlyphixError>(payload));
}

/// Under a version-3 frame, every check before the body decode passes.
pub open spec fn v3_fields(bits: Seq<bool>, payload: Seq<u8>, o: EncodeOptions) -> bool {
    let header = bytes_at(bits, 0, 56);
    let plen = payload.len();
    let clen = o.ecc.canonical().coded_len_spec(plen);
    let tl = o.integrity.trailer_len_spec();
    let bend = 56 + 8 * clen;
    let tend = bend + 8 * tl;
    &&& bits.len() >= 56
    &&& bytes_at(bits, 0, 8)[0] == CODEC_VERSION
    &&& integrity_of_tag(header[1]) == Some(o.integrity)
    &&& ecc_of_tag(header[2]) == Some(o.ecc.canonical())
    &&& be_u32(header.subrange(3, 7)) == plen
    &&& tend <= bits.len()
    &&& clean_after(bits, tend as int)
    &&& bytes_at(bits, 56, bend as int) == o.ecc.canonical().body_spec(payload)
    &&& bytes_at(bits, bend as int, tend as int) == o.integrity.trailer_spec(payload)
}

#[verifier::rlimit(40)]
pub proof fn lemma_v3_fields(bits: Seq<bool>, payload: Seq<u8>, o: EncodeOptions)
    requires
        frames_to(bits, payload, o),
        !(o.ecc is Off),
    ensures
        v3_fields(bits, payload, o),
{
    lemma_frame_fields(bits, payload, o);
    o.ecc.lemma_canonical();
    let hd = header_spec(payload.len(), o);
    let plen = payload.len();
    lemma_be_u32_roundtrip(plen as u32);
    assert(hd.subrange(3, 7) =~= be_bytes_u32(plen as u32));
}

// ----------------------------------------------------------------------------------
// Sizing
// ----------------------------------------------------------------------------------

/// Overhead bits (header + integrity trailer) for a v2 frame.
pub fn v2_overhead_bits(integrity: Integrity) -> (n: usize)
    ensures
        n == 48 + 8 * integrity.trailer_len_spec(),
{
    V2_HEADER_BITS + integrity.trailer_len() * 8
}

/// Overhead bits (header + integrity trailer) for a v3 frame.
pub fn v3_overhead_bits(integrity: Integrity) -> (n: usize)
    ensures
        n == 56 + 8 * integrity.trailer_len_spec(),
{
    V3_HEADER_BITS + integrity.trailer_len() * 8
}

/// Header + trailer bits for the frame that would be written with `opts`.
pub fn frame_overhead_bits(opts: EncodeOptions) -> (n: usize)
    ensures
        n == overhead_spec(opts),
        n <= 312,
{
    match opts.ecc {
        Ecc::Off => v2_overhead_bits(opts.integrity),
        _ => v3_overhead_bits(opts.integrity),
    }
}

/// `ceil(a / b)` for a positive `a`... or zero.
fn div_ceil(a: usize, b: usize) -> (q: usize)
    requires
        b >= 1,
    ensures
        q == ceil_div(a as nat, b as nat),
{
    if a == 0 {
        0
    } else {
        (a - 1) / b + 1
    }
}

pub proof fn lemma_ceil_div(a: nat, b: nat)
    requires
        b >= 1,
    ensures
        ceil_div(a, b) * b >= a,
        ceil_div(a, b) * b < a + b,
{
    if a > 0 {
        let q = (a - 1) / (b as int);
        vstd::arithmetic::div_mod::lemma_fundamental_div_mod((a - 1) as int, b as int);
        assert((q + 1) * b >= a && (q + 1) * b < a + b) by (nonlinear_arith)
            requires
                (a - 1) as int == (b as int) * q + (a - 1) % (b as int),
                0 <= (a - 1) % (b as int) < b,
        ;
    }
}

/// Minimum glyphs needed for a framed payload with integrity only (no ECC).
pub fn glyphs_needed(profile: &GlyphProfile, payload_len: usize, integrity: Integrity) -> (r: Result<usize>)
    requires
        profile.wf(),
        frame_fits(*profile, payload_len as nat, EncodeOptions { integrity, ecc: Ecc::Off }),
    ensures
        r == glyphs_needed_result(*profile, payload_len as nat, EncodeOptions { integrity, ecc: Ecc::Off }),
{
    glyphs_needed_with(profile, payload_len, EncodeOptions { integrity, ecc: Ecc::Off })
}

/// Minimum glyphs needed for a framed payload with full options (integrity + ECC).
pub fn glyphs_needed_with(profile: &GlyphProfile, payload_len: usize, opts: EncodeOptions) -> (r: Result<usize>)
    requires
        profile.wf(),
        frame_fits(*profile, payload_len as nat, opts),
    ensures
        r == glyphs_needed_result(*profile, payload_len as nat, opts),
{
    proof {
        profile.lemma_wf();
        opts.ecc.lemma_coded_len_bound(payload_len as nat);
    }
    let body = opts.ecc.coded_len(payload_len);
    let need_bits = frame_overhead_bits(opts) + body * 8;
    let bpg = profile.bits_per_glyph();
    if bpg == 0 {
        return Err(GlyphixError::InvalidProfile("bits_per_glyph is 0".to_string()));
    }
    let n = div_ceil(need_bits, bpg);
    if n > profile.max_glyphs {
        return Err(GlyphixError::GlyphCountExceeded { count: n, cap: profile.max_glyphs });
    }
    Ok(n)
}

/// Number of glyphs [`encode`] would produce.
pub fn glyph_count_for(profile: &GlyphProfile, payload: &[u8]) -> (r: Result<usize>)
    requires
        profile.wf(),
        frame_fits(*profile, payload@.len(), EncodeOptions { integrity: Integrity::Off, ecc: Ecc::Off }),
    ensures
        r == glyphs_needed_result(*profile, payload@.len(), EncodeOptions { integrity: Integrity::Off, ecc: Ecc::Off }),
{
    glyph_count_for_with(profile, payload, Integrity::Off)
}

/// Number of glyphs for a payload with integrity (no ECC).
pub fn glyph_count_for_with(profile: &GlyphProfile, payload: &[u8], integrity: Integrity) -> (r: Result<usize>)
    requires
        profile.wf(),
        frame_fits(*profile, payload@.len(), EncodeOptions { integrity, ecc: Ecc::Off }),
    ensures
        r == glyphs_needed_result(*profile, payload@.len(), EncodeOptions { integrity, ecc: Ecc::Off }),
{
    glyphs_needed(profile, payload.len(), integrity)
}

/// Number of glyphs for a payload with full encode options.
pub fn glyph_count_for_opts(profile: &GlyphProfile, payload: &[u8], opts: EncodeOptions) -> (r: Result<usize>)
    requires
        profile.wf(),
        frame_fits(*profile, payload@.len(), opts),
    ensures
        r == glyphs_needed_result(*profile, payload@.len(), opts),
{
    glyphs_needed_with(profile, payload.len(), opts)
}

/// `a * b` clamped at `usize::MAX`.
pub open spec fn sat_mul(a: nat, b: nat) -> nat {
    if a * b > usize::MAX {
        usize::MAX as nat
    } else {
        a * b
    }
}

fn saturating_mul(a: usize, b: usize) -> (c: usize)
    ensures
        c == sat_mul(a as nat, b as nat),
{
    match a.checked_mul(b) {
        Some(c) => c,
        None => usize::MAX,
    }
}

/// Total information bits available in `n` glyphs (including header/pad).
pub fn capacity_bits(profile: &GlyphProfile, glyph_count: usize) -> (n: usize)
    requires
        profile.wf(),
    ensures
        n == sat_mul(profile.bpg(), glyph_count as nat),
{
    saturating_mul(profile.bits_per_glyph(), glyph_count)
}

/// Max payload bytes for `glyph_count` glyphs, no integrity and no ECC.
pub fn capacity_payload_bytes(profile: &GlyphProfile, glyph_count: usize) -> (n: usize)
    requires
        profile.wf(),
    ensures
        n == capacity_spec(*profile, glyph_count as nat, EncodeOptions { integrity: Integrity::Off, ecc: Ecc::Off }),
{
    capacity_payload_bytes_with(profile, glyph_count, Integrity::Off)
}

/// Max payload bytes for `glyph_count` glyphs with `integrity` (no ECC).
pub fn capacity_payload_bytes_with(profile: &GlyphProfile, glyph_count: usize, integrity: Integrity) -> (n: usize)
    requires
        profile.wf(),
    ensures
        n == capacity_spec(*profile, glyph_count as nat, EncodeOptions { integrity, ecc: Ecc::Off }),
{
    capacity_payload_bytes_opts(profile, glyph_count, EncodeOptions { integrity, ecc: Ecc::Off })
}

/// Coded-body budget in bytes for `glyph_count` glyphs.
pub open spec fn body_budget_spec(p: GlyphProfile, glyph_count: nat, o: EncodeOptions) -> nat {
    sat_sub(sat_mul(p.bpg(), glyph_count), overhead_spec(o)) / 8
}

/// The largest payload whose coded body fits the budget.
pub open spec fn capacity_spec(p: GlyphProfile, glyph_count: nat, o: EncodeOptions) -> nat {
    let budget = body_budget_spec(p, glyph_count, o);
    choose|n: nat| n <= budget && o.ecc.coded_len_spec(n) <= budget
        && forall|m: nat| n < m <= budget ==> o.ecc.coded_len_spec(m) > budget
}

/// Max original payload bytes for `glyph_count` glyphs with full options (incl. ECC).
pub fn capacity_payload_bytes_opts(profile: &GlyphProfile, glyph_count: usize, opts: EncodeOptions) -> (n: usize)
    requires
        profile.wf(),
    ensures
        n == capacity_spec(*profile, glyph_count as nat, opts),
        n <= body_budget_spec(*profile, glyph_count as nat, opts),
        opts.ecc.coded_len_spec(n as nat) <= body_budget_spec(*profile, glyph_count as nat, opts),
        forall|m: nat| n < m <= body_budget_spec(*profile, glyph_count as nat, opts)
            ==> opts.ecc.coded_len_spec(m) > body_budget_spec(*profile, glyph_count as nat, opts),
{
    let total_bits = saturating_mul(profile.bits_per_glyph(), glyph_count);
    let overhead = frame_overhead_bits(opts);
    let rem = if total_bits >= overhead { total_bits - overhead } else { 0 };
    let body_budget = rem / 8;
    proof {
        opts.ecc.lemma_coded_len_bound(body_budget as nat);
    }
    let n = opts.ecc.max_payload_for_body(body_budget);
    proof {
        let budget = body_budget_spec(*profile, glyph_count as nat, opts);
        assert(budget == body_budget);
        let pred = |k: nat| k <= budget && opts.ecc.coded_len_spec(k) <= budget
            && forall|m: nat| k < m <= budget ==> opts.ecc.coded_len_spec(m) > budget;
        assert(pred(n as nat));
        let c = capacity_spec(*profile, glyph_count as nat, opts);
        assert(pred(c));
        if c < n {
            assert(opts.ecc.coded_len_spec(n as nat) > budget);
        }
        if n < c {
            assert(opts.ecc.coded_len_spec(c) > budget);
        }
    }
    n
}

/// The largest `n <= k` whose coded body fits `budget` (zero when none above it does).
pub open spec fn largest_fit(e: Ecc, budget: nat, k: nat) -> nat
    decreases k,
{
    if k == 0 || e.coded_len_spec(k) <= budget {
        k
    } else {
        largest_fit(e, budget, (k - 1) as nat)
    }
}

/// `largest_fit` is a fitting payload size with no fitting size above it up to `k`.
pub proof fn lemma_largest_fit(e: Ecc, budget: nat, k: nat)
    ensures
        largest_fit(e, budget, k) <= k,
        e.coded_len_spec(largest_fit(e, budget, k)) <= budget,
        forall|m: nat| largest_fit(e, budget, k) < m <= k ==> e.coded_len_spec(m) > budget,
    decreases k,
{
    if k > 0 && e.coded_len_spec(k) > budget {
        lemma_largest_fit(e, budget, (k - 1) as nat);
    }
    assert(e.coded_len_spec(0) == 0) by {
        if e is ReedSolomon {
            assert(crate::ecc::blocks_for(0, e.max_message_spec()) == 0);
        }
    }
}

/// The capacity is a fitting payload size, and no larger size up to the body
/// budget fits.
pub proof fn lemma_capacity_fits(p: GlyphProfile, glyph_count: nat, o: EncodeOptions)
    ensures
        capacity_spec(p, glyph_count, o) <= body_budget_spec(p, glyph_count, o),
        o.ecc.coded_len_spec(capacity_spec(p, glyph_count, o)) <= body_budget_spec(p, glyph_count, o),
        forall|m: nat| capacity_spec(p, glyph_count, o) < m <= body_budget_spec(p, glyph_count, o)
            ==> o.ecc.coded_len_spec(m) > body_budget_spec(p, glyph_count, o),
{
    let budget = body_budget_spec(p, glyph_count, o);
    lemma_largest_fit(o.ecc, budget, budget);
    let w = largest_fit(o.ecc, budget, budget);
    assert(w <= budget && o.ecc.coded_len_spec(w) <= budget
        && forall|m: nat| w < m <= budget ==> o.ecc.coded_len_spec(m) > budget);
}

/// A payload of at most the capacity of `glyph_count` glyphs, when that capacity
/// is at least one byte, needs at most `glyph_count` glyphs.
pub proof fn lemma_within_capacity(p: GlyphProfile, glyph_count: nat, o: EncodeOptions, len: nat)
    requires
        p.wf(),
        capacity_spec(p, glyph_count, o) >= 1,
        len <= capacity_spec(p, glyph_count, o),
    ensures
        glyphs_needed_spec(p, len, o) <= glyph_count,
{
    p.lemma_wf();
    let b = p.bpg();
    let sm = sat_mul(b, glyph_count);
    let ov = overhead_spec(o);
    let need = need_bits_spec(len, o);
    let budget = body_budget_spec(p, glyph_count, o);
    let c = capacity_spec(p, glyph_count, o);
    lemma_capacity_fits(p, glyph_count, o);
    lemma_ceil_div(need, b);
    o.ecc.lemma_coded_len_monotone(len, c);
    assert(sm >= ov);
    vstd::arithmetic::div_mod::lemma_fundamental_div_mod((sm - ov) as int, 8);
    assert(need <= sm);
    assert(sm <= b * glyph_count);
    let q = ceil_div(need, b);
    assert(q <= glyph_count) by (nonlinear_arith)
        requires
            q * b < need + b,
            need <= b * glyph_count,
            b >= 1,
    ;
}

/// A payload fits `glyph_count` glyphs (its frame needs at most that many) exactly
/// when the frame's overhead fits them and the payload is at most their capacity.
pub proof fn lemma_capacity_exact(p: GlyphProfile, glyph_count: nat, o: EncodeOptions, len: nat)
    requires
        p.wf(),
        p.bpg() * glyph_count <= usize::MAX,
    ensures
        glyphs_needed_spec(p, len, o) <= glyph_count
            <==> (overhead_spec(o) <= p.bpg() * glyph_count && len <= capacity_spec(p, glyph_count, o)),
{
    p.lemma_wf();
    let b = p.bpg();
    let total = b * glyph_count;
    let ov = overhead_spec(o);
    let need = need_bits_spec(len, o);
    let budget = body_budget_spec(p, glyph_count, o);
    let c = capacity_spec(p, glyph_count, o);
    lemma_capacity_fits(p, glyph_count, o);
    lemma_ceil_div(need, b);
    o.ecc.lemma_coded_len_bound(len);
    assert(sat_mul(b, glyph_count) == total);
    let q = ceil_div(need, b);
    assert(q <= glyph_count <==> need <= total) by (nonlinear_arith)
        requires
            q * b >= need,
            q * b < need + b,
            total == b * glyph_count,
            b >= 1,
    ;
    if ov <= total {
        vstd::arithmetic::div_mod::lemma_fundamental_div_mod((total - ov) as int, 8);
        assert(budget == (total - ov) / 8);
        if need <= total {
            if len > c {
                assert(o.ecc.coded_len_spec(len) > budget);
            }
        }
        if len <= c {
            o.ecc.lemma_coded_len_monotone(len, c);
        }
    }
}

// ----------------------------------------------------------------------------------
// Encode
// ----------------------------------------------------------------------------------

/// Encode `payload` with default options (no integrity trailer, no ECC).
pub fn encode(profile: &GlyphProfile, payload: &[u8]) -> (r: Result<Vec<Grid>>)
    requires
        profile.wf(),
        payload@.len() <= u32::MAX ==> frame_fits(*profile, payload@.len(), EncodeOptions { integrity: Integrity::Off, ecc: Ecc::Off }),
    ensures
        glyphs_agree(r, encode_spec(*profile, payload@, EncodeOptions { integrity: Integrity::Off, ecc: Ecc::Off })),
        r matches Ok(gs) ==> forall|i: int| 0 <= i < gs@.len() ==> (#[trigger] gs@[i])@.wf(),
{
    encode_with(profile, payload, EncodeOptions { integrity: Integrity::Off, ecc: Ecc::Off })
}

/// Encode `payload` with integrity / ECC / framing options.
pub fn encode_with(profile: &GlyphProfile, payload: &[u8], opts: EncodeOptions) -> (r: Result<Vec<Grid>>)
    requires
        profile.wf(),
        payload@.len() <= u32::MAX ==> frame_fits(*profile, payload@.len(), opts),
    ensures
        glyphs_agree(r, encode_spec(*profile, payload@, opts)),
        r matches Ok(gs) ==> forall|i: int| 0 <= i < gs@.len() ==> (#[trigger] gs@[i])@.wf(),
{
    if payload.len() > 0xffff_ffff {
        let msg = "payload longer than u32::MAX".to_string();
        proof {
            lemma_message(msg);
        }
        return Err(GlyphixError::InvalidProfile(msg));
    }
    let n_glyphs = glyphs_needed_with(profile, payload.len(), opts)?;
    proof {
        profile.lemma_wf();
        lemma_ceil_div(need_bits_spec(payload@.len(), opts), profile.bpg());
        lemma_frame_len(payload@, opts);
    }
    let bpg = profile.bits_per_glyph();
    let total_bits = n_glyphs * bpg;

    let coded = opts.ecc.encode_body(payload)?;
    let trailer = opts.integrity.compute(payload);
    let len_be = crate::check::u32_to_be(payload.len() as u32);

    let mut frame: Vec<u8> = Vec::new();
    match opts.ecc {
        Ecc::Off => {
            frame.push(CODEC_VERSION_V2);
            frame.push(opts.integrity.tag());
        },
        _ => {
            frame.push(CODEC_VERSION);
            frame.push(opts.integrity.tag());
            frame.push(opts.ecc.tag());
        },
    }
    frame.push(len_be[0]);
    frame.push(len_be[1]);
    frame.push(len_be[2]);
    frame.push(len_be[3]);
    proof {
        assert(frame@ =~= header_spec(payload@.len(), opts));
    }
    frame.extend_from_slice(&coded);
    frame.extend_from_slice(&trailer);
    proof {
        assert(frame@ =~= frame_spec(payload@, opts));
    }

    let mut bits = bytes_to_bits(&frame);
    if bits.len() > total_bits {
        return Err(GlyphixError::TruncatedStream { needed: bits.len(), available: total_bits });
    }
    let ghost stream = bits@;
    while bits.len() < total_bits
        invariant
            stream.len() <= bits@.len() <= total_bits,
            bits@ == stream + zero_bits((bits@.len() - stream.len()) as nat),
        decreases total_bits - bits@.len(),
    {
        bits.push(false);
        assert(bits@ =~= stream + zero_bits((bits@.len() - stream.len()) as nat));
    }
    let ghost padded = bits@;
    let ghost target = glyphs_from_bits(*profile, padded, n_glyphs as nat);

    let mut glyphs: Vec<Grid> = Vec::new();
    let mut i: usize = 0;
    while i < n_glyphs
        invariant
            profile.wf(),
            bpg == profile.bpg(),
            total_bits == n_glyphs * bpg,
            bpg >= 1,
            bits@ == padded,
            padded.len() == total_bits,
            target == glyphs_from_bits(*profile, padded, n_glyphs as nat),
            i <= n_glyphs,
            glyphs@.len() == i,
            views(glyphs@) == target.take(i as int),
            forall|j: int| 0 <= j < glyphs@.len() ==> (#[trigger] glyphs@[j])@.wf(),
        decreases n_glyphs - i,
    {
        proof {
            lemma_digit_window(n_glyphs as int, bpg as int, i as int);
        }
        let g = pack_glyph(profile, &bits, i * bpg)?;
        let ghost before = glyphs@;
        glyphs.push(g);
        proof {
            assert(g@ == target[i as int]);
            assert forall|j: int| 0 <= j <= i implies views(glyphs@)[j] == target.take(i + 1)[j] by {
                if j < i {
                    assert(glyphs@[j] == before[j]);
                    assert(views(before)[j] == target.take(i as int)[j]);
                }
            }
            assert(views(glyphs@) =~= target.take(i + 1));
        }
        i = i + 1;
    }
    proof {
        assert(target.take(n_glyphs as int) =~= target);
        assert(padded == pad_bits(bytes_to_bits_spec(frame_spec(payload@, opts)), (n_glyphs * profile.bpg()) as nat));
    }
    Ok(glyphs)
}

// ----------------------------------------------------------------------------------
// Decode
// ----------------------------------------------------------------------------------

/// Glyphs cut from a stream are well formed, fit the profile, and pass the check.
pub proof fn lemma_stream_glyphs_valid(p: GlyphProfile, bits: Seq<bool>, count: nat)
    requires
        p.wf(),
        bits.len() == count * p.bpg(),
    ensures
        glyphs_check(p, glyphs_from_bits(p, bits, count)) is Ok,
    decreases count,
{
    p.lemma_wf();
    let gs = glyphs_from_bits(p, bits, count);
    if count > 0 {
        let b = p.bpg() as int;
        let g0 = gs[0];
        assert(b <= bits.len()) by (nonlinear_arith)
            requires
                bits.len() == count * b,
                count >= 1,
        ;
        let chunk = bits.subrange(0, b);
        assert(g0 == glyph_from_stream(p, chunk));
        assert forall|i: int| 0 <= i < g0.cells.len() implies g0.cells[i] < p.palette_size by {
            let n = p.cells() as int;
            let k = p.bpc() as int;
            lemma_digit_window(n, k, n - 1 - i);
            let w = chunk.subrange((n - 1 - i) * k, (n - 1 - i) * k + k);
            lemma_bits_value_bound(w);
        }
        crate::grid::lemma_palette_check_ok(g0.cells, p.palette_size);
        let rest = bits.subrange(b, bits.len() as int);
        assert(rest.len() == (count - 1) * b) by (nonlinear_arith)
            requires
                rest.len() == bits.len() - b,
                bits.len() == count * b,
        ;
        lemma_stream_glyphs_valid(p, rest, (count - 1) as nat);
        assert(gs.drop_first() =~= glyphs_from_bits(p, rest, (count - 1) as nat)) by {
            assert forall|j: int| 0 <= j < count - 1 implies gs.drop_first()[j] == glyphs_from_bits(p, rest, (count - 1) as nat)[j] by {
                assert((j + 1) * b == j * b + b) by (nonlinear_arith);
                assert(0 <= j * b) by (nonlinear_arith)
                    requires
                        j >= 0,
                        b >= 1,
                ;
                assert(j * b + b <= (count - 1) * b) by (nonlinear_arith)
                    requires
                        j < count - 1,
                        b >= 1,
                ;
                assert(bits.subrange((j + 1) * b, (j + 1) * b + b) =~= rest.subrange(j * b, j * b + b));
            }
        }
    }
}

/// Decode a glyph sequence back to the original payload bytes.
///
/// Accepts versions 1, 2, and 3; applies RS correction when the frame carries ECC.
pub fn decode(profile: &GlyphProfile, glyphs: &[Grid]) -> (r: Result<Vec<u8>>)
    requires
        profile.wf(),
        forall|i: int| 0 <= i < glyphs@.len() ==> (#[trigger] glyphs@[i])@.wf(),
    ensures
        bytes_agree(r, decode_spec(*profile, views(glyphs@))),
        forall|payload: Seq<u8>, o: EncodeOptions|
            o.wf() && #[trigger] encode_spec(*profile, payload, o) == Ok::<Seq<GridView>, GlyphixError>(views(glyphs@))
                ==> (r is Ok && r->Ok_0@ == payload),
        forall|payload: Seq<u8>, o: EncodeOptions|
            glyphs@.len() <= profile.max_glyphs && glyphs_check(*profile, views(glyphs@)) is Ok
                && #[trigger] frames_to(stream_of_glyphs(*profile, views(glyphs@)), payload, o)
                ==> (r is Ok && r->Ok_0@ == payload),
{
    let ghost gv = views(glyphs@);
    assert(gv.len() == glyphs@.len());
    if glyphs.len() == 0 {
        proof {
            assert forall|payload: Seq<u8>, o: EncodeOptions|
                #[trigger] frames_to(stream_of_glyphs(*profile, gv), payload, o) implies false by {
                lemma_frame_len(payload, o);
            }
            assert forall|payload: Seq<u8>, o: EncodeOptions|
                o.wf() && #[trigger] encode_spec(*profile, payload, o) == Ok::<Seq<GridView>, GlyphixError>(gv) implies false by {
                profile.lemma_wf();
                lemma_frame_len(payload, o);
                let n = glyphs_needed_spec(*profile, payload.len(), o);
                lemma_ceil_div(need_bits_spec(payload.len(), o), profile.bpg());
            }
        }
        return Err(GlyphixError::EmptyGlyphSequence);
    }
    if glyphs.len() > profile.max_glyphs {
        return Err(GlyphixError::GlyphCountExceeded { count: glyphs.len(), cap: profile.max_glyphs });
    }
    let mut bits: Vec<bool> = Vec::new();
    let mut i: usize = 0;
    proof {
        assert(gv.skip(0) =~= gv);
        assert(gv.take(0) =~= Seq::<GridView>::empty());
    }
    while i < glyphs.len()
        invariant
            profile.wf(),
            gv == views(glyphs@),
            gv.len() == glyphs@.len(),
            0 < glyphs@.len() <= profile.max_glyphs,
            forall|j: int| 0 <= j < glyphs@.len() ==> (#[trigger] glyphs@[j])@.wf(),
            i <= glyphs@.len(),
            glyphs_check(*profile, gv) == glyphs_check(*profile, gv.skip(i as int)),
            bits@ == stream_of_glyphs(*profile, gv.take(i as int)),
        decreases glyphs@.len() - i,
    {
        let ghost before = bits@;
        proof {
            assert(gv.skip(i as int)[0] == glyphs@[i as int]@);
        }
        match unpack_glyph(profile, &glyphs[i], &mut bits) {
            Err(e) => {
                proof {
                    assert(glyphs_check(*profile, gv.skip(i as int)) == Err::<(), GlyphixError>(e));
                    assert forall|payload: Seq<u8>, o: EncodeOptions|
                        o.wf() && #[trigger] encode_spec(*profile, payload, o) == Ok::<Seq<GridView>, GlyphixError>(gv) implies false by {
                        profile.lemma_wf();
                        let n = glyphs_needed_spec(*profile, payload.len(), o);
                        lemma_frame_len(payload, o);
                        lemma_ceil_div(need_bits_spec(payload.len(), o), profile.bpg());
                        let padded = pad_bits(bytes_to_bits_spec(frame_spec(payload, o)), n * profile.bpg());
                        lemma_stream_glyphs_valid(*profile, padded, n);
                    }
                }
                return Err(e);
            },
            Ok(_) => {},
        }
        proof {
            assert(gv.skip(i as int).drop_first() =~= gv.skip(i + 1));
            assert(gv.take(i + 1) =~= gv.take(i as int).push(gv[i as int]));
            lemma_stream_of_glyphs_push(*profile, gv.take(i as int), gv[i as int]);
        }
        i = i + 1;
    }
    proof {
        assert(gv.take(glyphs@.len() as int) =~= gv);
        assert(gv.skip(glyphs@.len() as int) =~= Seq::<GridView>::empty());
    }
    let r = decode_bits(&bits);
    proof {
        assert forall|payload: Seq<u8>, o: EncodeOptions|
            o.wf() && #[trigger] encode_spec(*profile, payload, o) == Ok::<Seq<GridView>, GlyphixError>(gv)
            implies frames_to(bits@, payload, o) by {
            profile.lemma_wf();
            let n = glyphs_needed_spec(*profile, payload.len(), o);
            let f = frame_spec(payload, o);
            let total = n * profile.bpg();
            lemma_frame_len(payload, o);
            lemma_ceil_div(need_bits_spec(payload.len(), o), profile.bpg());
            let padded = pad_bits(bytes_to_bits_spec(f), total);
            assert(padded.len() == total);
            lemma_glyphs_stream_roundtrip(*profile, padded, n);
            assert(gv == glyphs_from_bits(*profile, padded, n));
        }
    }
    r
}

/// Decode an unpacked bit stream.
fn decode_bits(bits: &Vec<bool>) -> (r: Result<Vec<u8>>)
    ensures
        bytes_agree(r, decode_bits_spec(bits@)),
        forall|payload: Seq<u8>, o: EncodeOptions| #[trigger] frames_to(bits@, payload, o)
            ==> (r is Ok && r->Ok_0@ == payload),
{
    if bits.len() < 8 {
        proof {
            assert forall|payload: Seq<u8>, o: EncodeOptions| #[trigger] frames_to(bits@, payload, o) implies false by {
                lemma_frame_fields(bits@, payload, o);
            }
        }
        return Err(GlyphixError::TruncatedStream { needed: 8, available: bits.len() });
    }
    let head = bits_to_bytes(&bits.as_slice()[0..8]);
    proof {
        crate::digits::lemma_ceil8_exact(1);
    }
    let version = head[0];
    if version == CODEC_VERSION_V1 {
        proof {
            assert forall|payload: Seq<u8>, o: EncodeOptions| #[trigger] frames_to(bits@, payload, o) implies false by {
                lemma_frame_fields(bits@, payload, o);
            }
        }
        decode_v1(bits)
    } else if version == CODEC_VERSION_V2 {
        let r = decode_v2(bits);
        proof {
            assert forall|payload: Seq<u8>, o: EncodeOptions| #[trigger] frames_to(bits@, payload, o)
                implies (r is Ok && r->Ok_0@ == payload) by {
                lemma_frame_fields(bits@, payload, o);
                if o.ecc is Off {
                    lemma_v2_roundtrip(bits@, payload, o);
                }
            }
        }
        r
    } else if version == CODEC_VERSION {
        let r = decode_v3(bits);
        proof {
            assert forall|payload: Seq<u8>, o: EncodeOptions| #[trigger] frames_to(bits@, payload, o)
                implies (r is Ok && r->Ok_0@ == payload) by {
                lemma_frame_fields(bits@, payload, o);
            }
        }
        r
    } else {
        proof {
            assert forall|payload: Seq<u8>, o: EncodeOptions| #[trigger] frames_to(bits@, payload, o) implies false by {
                lemma_frame_fields(bits@, payload, o);
            }
        }
        Err(GlyphixError::UnsupportedVersion { got: version, supported: "1, 2, 3" })
    }
}

/// True when some bit at or after `from` is set.
fn any_set_after(bits: &Vec<bool>, from: usize) -> (b: bool)
    ensures
        b == !clean_after(bits@, from as int),
{
    let mut i = from;
    while i < bits.len()
        invariant
            from <= i || i >= bits@.len(),
            forall|j: int| from <= j < i && j < bits@.len() ==> !bits@[j],
        decreases bits@.len() - i,
    {
        if bits[i] {
            return true;
        }
        i = i + 1;
    }
    false
}

/// Bytes from bit positions `lo .. hi`.
fn read_bytes(bits: &Vec<bool>, lo: usize, hi: usize) -> (out: Vec<u8>)
    requires
        lo <= hi <= bits@.len(),
    ensures
        out@ == bytes_at(bits@, lo as int, hi as int),
{
    bits_to_bytes(&bits.as_slice()[lo..hi])
}

fn decode_v1(bits: &Vec<bool>) -> (r: Result<Vec<u8>>)
    ensures
        bytes_agree(r, decode_v1_spec(bits@)),
{
    if bits.len() < V1_HEADER_BITS {
        return Err(GlyphixError::TruncatedStream { needed: V1_HEADER_BITS, available: bits.len() });
    }
    let header = read_bytes(bits, 0, V1_HEADER_BITS);
    proof {
        crate::digits::lemma_ceil8_exact(5);
    }
    let plen = u32_from_be(&header.as_slice()[1..5]);
    proof {
        assert(header@.subrange(1, 5) =~= header@.subrange(1, 5));
    }
    let plen_bits: u64 = plen as u64 * 8;
    if plen_bits > (bits.len() - V1_HEADER_BITS) as u64 {
        let cap = (bits.len() - V1_HEADER_BITS) / 8;
        return Err(GlyphixError::PayloadTooLong { payload_len: plen, capacity_bytes: cap });
    }
    let end = V1_HEADER_BITS + plen_bits as usize;
    if any_set_after(bits, end) {
        return Err(GlyphixError::DirtyPadding);
    }
    Ok(read_bytes(bits, V1_HEADER_BITS, end))
}

fn decode_v2(bits: &Vec<bool>) -> (r: Result<Vec<u8>>)
    ensures
        bytes_agree(r, decode_v2_spec(bits@)),
{
    if bits.len() < V2_HEADER_BITS {
        return Err(GlyphixError::TruncatedStream { needed: V2_HEADER_BITS, available: bits.len() });
    }
    let header = read_bytes(bits, 0, V2_HEADER_BITS);
    proof {
        crate::digits::lemma_ceil8_exact(6);
    }
    let integrity = Integrity::from_tag(header[1])?;
    let plen = u32_from_be(&header.as_slice()[2..6]);
    let trailer_len = integrity.trailer_len();
    let avail = bits.len() - V2_HEADER_BITS;
    let need: u64 = plen as u64 * 8 + trailer_len as u64 * 8;
    if need > avail as u64 {
        let cap = if bits.len() >= V2_HEADER_BITS + trailer_len * 8 {
            (bits.len() - (V2_HEADER_BITS + trailer_len * 8)) / 8
        } else {
            0
        };
        return Err(GlyphixError::PayloadTooLong { payload_len: plen, capacity_bytes: cap });
    }
    let payload_bits_end = V2_HEADER_BITS + plen as usize * 8;
    let trailer_bits_end = payload_bits_end + trailer_len * 8;
    if any_set_after(bits, trailer_bits_end) {
        return Err(GlyphixError::DirtyPadding);
    }
    let payload = read_bytes(bits, V2_HEADER_BITS, payload_bits_end);
    let trailer = read_bytes(bits, payload_bits_end, trailer_bits_end);
    proof {
        crate::digits::lemma_ceil8_exact(trailer_len as nat);
    }
    integrity.verify(payload.as_slice(), trailer.as_slice())?;
    Ok(payload)
}

#[verifier::rlimit(40)]
#[verifier::spinoff_prover]
fn decode_v3(bits: &Vec<bool>) -> (r: Result<Vec<u8>>)
    ensures
        bytes_agree(r, decode_v3_spec(bits@)),
        forall|payload: Seq<u8>, o: EncodeOptions| #[trigger] frames_to(bits@, payload, o) && !(o.ecc is Off)
            ==> (r is Ok && r->Ok_0@ == payload),
{
    proof {
        assert forall|payload: Seq<u8>, o: EncodeOptions| #[trigger] frames_to(bits@, payload, o) && !(o.ecc is Off)
            implies v3_fields(bits@, payload, o) by {
            lemma_v3_fields(bits@, payload, o);
        }
    }
    if bits.len() < V3_HEADER_BITS {
        return Err(GlyphixError::TruncatedStream { needed: V3_HEADER_BITS, available: bits.len() });
    }
    let header = read_bytes(bits, 0, V3_HEADER_BITS);
    proof {
        crate::digits::lemma_ceil8_exact(7);
    }
    let integrity = Integrity::from_tag(header[1])?;
    let ecc = Ecc::from_tag(header[2])?;
    let plen = u32_from_be(&header.as_slice()[3..7]);
    let trailer_len = integrity.trailer_len();
    let avail = bits.len() - V3_HEADER_BITS;
    proof {
        ecc.lemma_coded_len_bound(plen as nat);
    }
    if plen as u64 * 8 + trailer_len as u64 * 8 > avail as u64 {
        let cap = if bits.len() >= V3_HEADER_BITS + trailer_len * 8 {
            (bits.len() - (V3_HEADER_BITS + trailer_len * 8)) / 8
        } else {
            0
        };
        return Err(GlyphixError::PayloadTooLong { payload_len: plen, capacity_bytes: cap });
    }
    let coded_len = ecc.coded_len(plen as usize);
    let coded_bits: u64 = coded_len as u64 * 8;
    if coded_bits + trailer_len as u64 * 8 > avail as u64 {
        let cap = if bits.len() >= V3_HEADER_BITS + trailer_len * 8 {
            (bits.len() - (V3_HEADER_BITS + trailer_len * 8)) / 8
        } else {
            0
        };
        return Err(GlyphixError::PayloadTooLong { payload_len: plen, capacity_bytes: cap });
    }
    let body_bits_end = V3_HEADER_BITS + coded_len * 8;
    let trailer_bits_end = body_bits_end + trailer_len * 8;
    if any_set_after(bits, trailer_bits_end) {
        return Err(GlyphixError::DirtyPadding);
    }
    let coded = read_bytes(bits, V3_HEADER_BITS, body_bits_end);
    proof {
        crate::digits::lemma_ceil8_exact(coded_len as nat);
    }
    let payload = ecc.decode_body(coded.as_slice(), plen as usize)?;
    let trailer = read_bytes(bits, body_bits_end, trailer_bits_end);
    proof {
        crate::digits::lemma_ceil8_exact(trailer_len as nat);
    }
    integrity.verify(payload.as_slice(), trailer.as_slice())?;
    Ok(payload)
}

} // verus!
