//! Reed–Solomon error correction over payload bytes.
//!
//! ECC is applied **before** glyphs are painted: the payload is split into
//! messages of `255 - ecc_len` bytes and each becomes a `message ‖ parity`
//! codeword of the `reed-solomon` crate (GF(2⁸)). `ecc_len` comes from a parity
//! percent of a full 255-byte codeword (between 2 and 128 symbols).

use vstd::prelude::*;
use vstd::arithmetic::div_mod::{lemma_fundamental_div_mod_converse, lemma_div_is_ordered};
use crate::error::{lemma_message, message, GlyphixError, Result};
use crate::text::{decimal, push_decimal};
use crate::strings::{
    ascii_lower, first_non_ws, last_non_ws_end, trim_spec, parse_u8_spec, lower_chars, chars_is, trim, parse_u8,
    push_lowercase,
};

verus! {

broadcast use crate::error::lemma_message;

/// Parity symbol `i` that the `reed-solomon` encoder appends to `data` with
/// `ecc_len` parity symbols.
pub uninterp spec fn rs_parity_byte(ecc_len: nat, data: Seq<u8>, i: int) -> u8;

/// The codeword the encoder writes: the message followed by its parity symbols.
pub open spec fn rs_codeword(ecc_len: nat, data: Seq<u8>) -> Seq<u8> {
    data + Seq::new(ecc_len, |i: int| rs_parity_byte(ecc_len, data, i))
}

/// The message the `reed-solomon` decoder recovers from `block` with `ecc_len`
/// parity symbols (`None` when it reports too many errors).
pub uninterp spec fn rs_correction(ecc_len: nat, block: Seq<u8>) -> Option<Seq<u8>>;

/// Declared so that decoder errors can pass through verified code.
#[verifier::external_type_specification]
#[verifier::external_body]
pub struct ExDecoderError(reed_solomon::DecoderError);

/// Calls `reed_solomon::Encoder::new(ecc_len)` and its `encode(data)`, copying the
/// returned buffer. The encoder is systematic (it copies `data` to the front of the
/// buffer and sets the length to `data.len() + ecc_len`); each parity symbol is
/// left to the name `rs_parity_byte`. The crate's polynomials hold at most 256
/// symbols, hence the length bound.
#[verifier::external_body]
fn rs_encode(ecc_len: usize, data: &[u8]) -> (out: Vec<u8>)
    requires
        data@.len() + ecc_len <= 255,
    ensures
        out@.len() == data@.len() + ecc_len,
        out@.take(data@.len() as int) == data@,
        forall|i: int| 0 <= i < ecc_len ==> out@[data@.len() + i] == rs_parity_byte(ecc_len as nat, data@, i),
{
    reed_solomon::Encoder::new(ecc_len).encode(data)[..].to_vec()
}

/// Outcome of one decoder call.
pub type RsCorrected = core::result::Result<Vec<u8>, reed_solomon::DecoderError>;

/// Calls `reed_solomon::Decoder::new(ecc_len)` and its `correct(block, None)`,
/// copying the data part of the returned buffer. The recovered message is named
/// `rs_correction`. A block that is exactly an encoder codeword has zero
/// syndromes, and `correct` then returns its data part unchanged (the
/// "No errors" path of `correct_err_count`). `correct_err_count` asserts that the
/// block is shorter than 256 bytes, and the error evaluator's product of the
/// syndromes and the locator must fit a 256-entry polynomial, so `ecc_len` stays
/// at most 128.
#[verifier::external_body]
fn rs_correct(ecc_len: usize, block: &[u8]) -> (r: RsCorrected)
    requires
        ecc_len <= block@.len() < 256,
        ecc_len <= 128,
    ensures
        r is Ok <==> rs_correction(ecc_len as nat, block@) is Some,
        r matches Ok(d) ==> rs_correction(ecc_len as nat, block@) == Some(d@),
        r is Err ==> block@ != rs_codeword(ecc_len as nat, block@.take(block@.len() - ecc_len)),
        r matches Ok(d) ==> (block@ == rs_codeword(ecc_len as nat, block@.take(block@.len() - ecc_len)) ==> d@ == block@.take(block@.len() - ecc_len)),
{
    match reed_solomon::Decoder::new(ecc_len).correct(block, None) {
        Ok(buf) => Ok(buf.data().to_vec()),
        Err(e) => Err(e),
    }
}

/// Debug text (`{:?}`) of a `reed_solomon::DecoderError`. The crate declares the
/// enum with the single variant `TooManyErrors` and derives `Debug`, which prints
/// a unit variant's name.
#[verifier::external_body]
fn decoder_error_text(e: &reed_solomon::DecoderError) -> (s: String)
    ensures
        s@ == "TooManyErrors"@,
{
    format!("{e:?}")
}

/// What a block's correction adds to the recovered payload: the data part the
/// decoder returned, when it has the expected `msg_len` bytes. A block the
/// decoder could not correct, or data of another length, is an error, and `out`
/// stays as it was.
pub fn take_corrected_block(out: &mut Vec<u8>, msg_len: usize, corrected: RsCorrected) -> (r: Result<()>)
    ensures
        (match corrected {
            Err(_) => {
                &&& r is Err
                &&& r->Err_0.agrees(GlyphixError::EccDecodeFailed(message("RS correct failed: "@ + "TooManyErrors"@)))
                &&& final(out)@ == old(out)@
            },
            Ok(d) => if d@.len() != msg_len {
                &&& r is Err
                &&& r->Err_0.agrees(GlyphixError::EccDecodeFailed(message(
                    "RS data len "@ + decimal(d@.len()) + " != "@ + decimal(msg_len as nat),
                )))
                &&& final(out)@ == old(out)@
            } else {
                r is Ok && final(out)@ == old(out)@ + d@
            },
        }),
{
    match corrected {
        Err(err) => {
            let mut msg = "RS correct failed: ".to_string();
            let text = decoder_error_text(&err);
            msg.append(text.as_str());
            Err(GlyphixError::EccDecodeFailed(msg))
        },
        Ok(data) => {
            if data.len() != msg_len {
                let mut msg = "RS data len ".to_string();
                push_decimal(&mut msg, data.len() as u64);
                msg.append(" != ");
                push_decimal(&mut msg, msg_len as u64);
                return Err(GlyphixError::EccDecodeFailed(msg));
            }
            out.extend_from_slice(&data);
            Ok(())
        },
    }
}

/// Append an encoded block (message then parity) to the coded body.
pub fn append_codeword(out: &mut Vec<u8>, codeword: Vec<u8>)
    ensures
        final(out)@ == old(out)@ + codeword@,
{
    out.extend_from_slice(&codeword);
}

/// Error-correction scheme for the framed body.
#[derive(Debug, Clone, Copy, PartialEq, Eq, Hash, Default, Structural)]
#[non_exhaustive]
pub enum Ecc {
    /// No ECC (default). Framed body is the raw payload.
    #[default]
    Off,
    /// Reed–Solomon over GF(2⁸) with the given percent of each codeword as parity.
    ReedSolomon {
        /// Percent of codeword that is parity (1..=50).
        parity_percent: u8,
    },
}

/// Clamp to an inclusive range.
pub open spec fn clamp_nat(v: nat, lo: nat, hi: nat) -> nat {
    if v < lo {
        lo
    } else if v > hi {
        hi
    } else {
        v
    }
}

/// Number of RS blocks for a payload (`ceil(len / m)`).
pub open spec fn blocks_for(len: nat, m: nat) -> nat {
    if len == 0 || m == 0 {
        0
    } else {
        ((len - 1) / (m as int) + 1) as nat
    }
}

/// RS codewords of consecutive messages of at most `m` bytes.
pub open spec fn rs_blocks(e: nat, m: nat, payload: Seq<u8>) -> Seq<u8>
    decreases payload.len(),
{
    if payload.len() == 0 || m == 0 {
        Seq::empty()
    } else if payload.len() <= m {
        rs_codeword(e, payload)
    } else {
        rs_codeword(e, payload.take(m as int)) + rs_blocks(e, m, payload.skip(m as int))
    }
}

/// Messages recovered block by block (`None` on any failure).
pub open spec fn rs_unblocks(e: nat, m: nat, coded: Seq<u8>, remaining: nat) -> Option<Seq<u8>>
    decreases remaining,
{
    if remaining == 0 || m == 0 {
        Some(Seq::empty())
    } else {
        let msg_len = if remaining < m { remaining } else { m };
        let bl = msg_len + e;
        if bl > coded.len() {
            None
        } else {
            match rs_correction(e, coded.take(bl as int)) {
                None => None,
                Some(d) => if d.len() != msg_len {
                    None
                } else {
                    match rs_unblocks(e, m, coded.skip(bl as int), (remaining - msg_len) as nat) {
                        Some(rest) => Some(d + rest),
                        None => None,
                    }
                },
            }
        }
    }
}

/// Text of the error where recovering messages block by block first fails.
pub open spec fn rs_failure_text(e: nat, m: nat, coded: Seq<u8>, remaining: nat) -> Seq<char>
    decreases remaining,
{
    if remaining == 0 || m == 0 {
        Seq::empty()
    } else {
        let msg_len = if remaining < m { remaining } else { m };
        let bl = msg_len + e;
        if bl > coded.len() {
            "truncated RS block"@
        } else {
            match rs_correction(e, coded.take(bl as int)) {
                None => "RS correct failed: "@ + "TooManyErrors"@,
                Some(d) => if d.len() != msg_len {
                    "RS data len "@ + decimal(d.len()) + " != "@ + decimal(msg_len)
                } else {
                    rs_failure_text(e, m, coded.skip(bl as int), (remaining - msg_len) as nat)
                },
            }
        }
    }
}

/// The error for a name that `ecc_of_name` rejects.
pub open spec fn ecc_name_error(s: Seq<char>) -> GlyphixError {
    let t = ascii_lower(trim_spec(s));
    if (t.len() >= 3 && (t.take(3) == "rs:"@ || t.take(3) == "rs="@)) || (t.len() >= 1 && t.last() == '%') {
        GlyphixError::InvalidProfile(message("bad ecc `"@ + s + "`"@))
    } else {
        GlyphixError::InvalidProfile(message("unknown ecc `"@ + t + "`; try none, rs10, rs20, rs:15"@))
    }
}

/// ECC for a wire tag.
pub open spec fn ecc_of_tag(tag: u8) -> Option<Ecc> {
    if tag == 0 {
        Some(Ecc::Off)
    } else if 1 <= tag <= 50 {
        Some(Ecc::ReedSolomon { parity_percent: tag })
    } else {
        None
    }
}

/// RS with a clamped parity percent.
pub open spec fn rs_percent(p: u8) -> Ecc {
    Ecc::ReedSolomon { parity_percent: clamp_nat(p as nat, 1, 50) as u8 }
}

/// ECC named by a trimmed, lower-cased string; `None` when unknown or malformed.
pub open spec fn ecc_of_name(t: Seq<char>) -> Option<Ecc> {
    if t == "none"@ || t == "off"@ || t == "0"@ {
        Some(Ecc::Off)
    } else if t == "rs10"@ || t == "rs-10"@ || t == "10%"@ || t == "10"@ {
        Some(rs_percent(10))
    } else if t == "rs20"@ || t == "rs-20"@ || t == "20%"@ || t == "20"@ {
        Some(rs_percent(20))
    } else if t.len() >= 3 && (t.take(3) == "rs:"@ || t.take(3) == "rs="@) {
        match parse_u8_spec(t.skip(3)) {
            Some(n) => Some(rs_percent(n)),
            None => None,
        }
    } else if t.len() >= 1 && t.last() == '%' {
        match parse_u8_spec(t.drop_last()) {
            Some(n) => Some(rs_percent(n)),
            None => None,
        }
    } else {
        None
    }
}

impl Ecc {
    /// Wire tag: `0` = none, `1..=50` = RS parity percent (clamped).
    pub open spec fn tag_spec(self) -> u8 {
        match self {
            Ecc::Off => 0u8,
            Ecc::ReedSolomon { parity_percent } => clamp_nat(parity_percent as nat, 1, 50) as u8,
        }
    }

    /// A scheme whose wire tag reads back as one with the same parity length: no
    /// ECC, or any percent from 1 (a percent past 50 writes tag 50, whose 128
    /// parity symbols it also has). Percent 0 writes tag 1, which reads back with
    /// 3 parity symbols instead of 2.
    pub open spec fn wf(self) -> bool {
        match self {
            Ecc::Off => true,
            Ecc::ReedSolomon { parity_percent } => 1 <= parity_percent,
        }
    }

    /// The scheme a decoder reads back from this scheme's tag.
    pub open spec fn canonical(self) -> Ecc {
        match self {
            Ecc::Off => Ecc::Off,
            Ecc::ReedSolomon { parity_percent } => Ecc::ReedSolomon {
                parity_percent: clamp_nat(parity_percent as nat, 1, 50) as u8,
            },
        }
    }

    /// The tag reads back as the canonical scheme, which codes bodies exactly as
    /// this scheme does when it is well formed.
    pub proof fn lemma_canonical(self)
        ensures
            ecc_of_tag(self.tag_spec()) == Some(self.canonical()),
            self.wf() ==> self.canonical().ecc_len_spec() == self.ecc_len_spec(),
            self.wf() ==> self.canonical().max_message_spec() == self.max_message_spec(),
            self.wf() ==> forall|n: nat| #[trigger] self.canonical().coded_len_spec(n) == self.coded_len_spec(n),
            self.wf() ==> forall|q: Seq<u8>| #[trigger] self.canonical().body_spec(q) == self.body_spec(q),
            self.wf() ==> forall|c: Seq<u8>, n: nat| #[trigger] self.canonical().decode_body_spec(c, n)
                == self.decode_body_spec(c, n),
    {
        if let Ecc::ReedSolomon { parity_percent } = self {
            if parity_percent > 50 {
                assert((255 * parity_percent + 99) / 100 >= 128);
                assert((255 * 50 + 99) / 100 == 128);
            }
        }
    }

    /// Parity symbols per RS block (`0` if none).
    pub open spec fn ecc_len_spec(self) -> nat {
        match self {
            Ecc::Off => 0,
            Ecc::ReedSolomon { parity_percent } => clamp_nat(
                ((255 * parity_percent + 99) / 100) as nat,
                2,
                128,
            ),
        }
    }

    /// Max message bytes per block.
    pub open spec fn max_message_spec(self) -> nat {
        match self {
            Ecc::Off => usize::MAX as nat,
            Ecc::ReedSolomon { .. } => (255 - self.ecc_len_spec()) as nat,
        }
    }

    /// Length of the coded body for a payload length.
    pub open spec fn coded_len_spec(self, len: nat) -> nat {
        match self {
            Ecc::Off => len,
            Ecc::ReedSolomon { .. } => len + blocks_for(len, self.max_message_spec()) * self.ecc_len_spec(),
        }
    }

    /// The coded body written for `payload`.
    pub open spec fn body_spec(self, payload: Seq<u8>) -> Seq<u8> {
        match self {
            Ecc::Off => payload,
            Ecc::ReedSolomon { .. } => rs_blocks(self.ecc_len_spec(), self.max_message_spec(), payload),
        }
    }

    /// The payload recovered from a coded body.
    pub open spec fn decode_body_spec(self, coded: Seq<u8>, payload_len: nat) -> Result<Seq<u8>> {
        match self {
            Ecc::Off => if coded.len() < payload_len {
                Err(GlyphixError::TruncatedStream {
                    needed: (payload_len * 8) as usize,
                    available: (coded.len() * 8) as usize,
                })
            } else {
                Ok(coded.take(payload_len as int))
            },
            Ecc::ReedSolomon { .. } => if payload_len == 0 {
                if coded.len() != 0 {
                    Err(GlyphixError::EccDecodeFailed(message("empty payload but non-empty coded body"@)))
                } else {
                    Ok(Seq::empty())
                }
            } else if coded.len() != self.coded_len_spec(payload_len) {
                Err(GlyphixError::EccDecodeFailed(message(
                    "coded body length "@ + decimal(coded.len()) + " != expected "@ + decimal(
                        self.coded_len_spec(payload_len),
                    ) + " for payload_len="@ + decimal(payload_len),
                )))
            } else {
                match rs_unblocks(self.ecc_len_spec(), self.max_message_spec(), coded, payload_len) {
                    Some(p) => Ok(p),
                    None => Err(GlyphixError::EccDecodeFailed(message(
                        rs_failure_text(self.ecc_len_spec(), self.max_message_spec(), coded, payload_len),
                    ))),
                }
            },
        }
    }

    pub proof fn lemma_ecc_len_bounds(self)
        ensures
            self is ReedSolomon ==> 2 <= self.ecc_len_spec() <= 128 && 127 <= self.max_message_spec() <= 253,
            self.ecc_len_spec() + self.max_message_spec() <= usize::MAX,
            self is ReedSolomon ==> self.ecc_len_spec() + self.max_message_spec() == 255,
    {
    }

    /// RS with the given parity percent (clamped to 1..=50).
    pub fn reed_solomon(parity_percent: u8) -> (e: Self)
        ensures
            e == rs_percent(parity_percent),
            e.wf(),
    {
        let p = if parity_percent < 1 {
            1
        } else if parity_percent > 50 {
            50
        } else {
            parity_percent
        };
        Ecc::ReedSolomon { parity_percent: p }
    }

    /// Common 10% rate preset.
    pub fn rs10() -> (e: Self)
        ensures
            e == (Ecc::ReedSolomon { parity_percent: 10 }),
    {
        Self::reed_solomon(10)
    }

    /// Common 20% rate preset.
    pub fn rs20() -> (e: Self)
        ensures
            e == (Ecc::ReedSolomon { parity_percent: 20 }),
    {
        Self::reed_solomon(20)
    }

    /// Wire tag: `0` = none, `1..=50` = RS parity percent (clamped).
    pub fn tag(self) -> (t: u8)
        ensures
            t == self.tag_spec(),
            ecc_of_tag(t) == Some(self.canonical()),
    {
        match self {
            Ecc::Off => 0,
            Ecc::ReedSolomon { parity_percent } => {
                if parity_percent < 1 {
                    1
                } else if parity_percent > 50 {
                    50
                } else {
                    parity_percent
                }
            },
        }
    }

    /// Parse a wire ECC tag.
    pub fn from_tag(tag: u8) -> (r: Result<Self>)
        ensures
            r is Ok <==> ecc_of_tag(tag) is Some,
            r matches Ok(e) ==> ecc_of_tag(tag) == Some(e),
            r matches Err(e) ==> e == (GlyphixError::UnknownEcc { tag }),
    {
        if tag == 0 {
            Ok(Ecc::Off)
        } else if 1 <= tag && tag <= 50 {
            Ok(Ecc::ReedSolomon { parity_percent: tag })
        } else {
            Err(GlyphixError::UnknownEcc { tag })
        }
    }

    /// The short name of the scheme, as it appears in reports and command lines.
    pub open spec fn name_spec(self) -> &'static str {
        match self {
            Ecc::Off => "none",
            Ecc::ReedSolomon { parity_percent } => if parity_percent == 10 {
                "rs10"
            } else if parity_percent == 20 {
                "rs20"
            } else {
                "rs"
            },
        }
    }

    /// Short name for CLI / logs.
    pub fn as_str(self) -> (s: &'static str)
        ensures
            s == self.name_spec(),
    {
        match self {
            Ecc::Off => "none",
            Ecc::ReedSolomon { parity_percent } => {
                if parity_percent == 10 {
                    "rs10"
                } else if parity_percent == 20 {
                    "rs20"
                } else {
                    "rs"
                }
            },
        }
    }

    /// Parse CLI names: `none`, `rs10`, `rs20`, `rs:15`, `10%`, etc.
    pub fn parse(s: &str) -> (r: Result<Self>)
        ensures
            r is Ok <==> ecc_of_name(ascii_lower(trim_spec(s@))) is Some,
            r matches Ok(e) ==> ecc_of_name(ascii_lower(trim_spec(s@))) == Some(e),
            r matches Err(e) ==> e.agrees(ecc_name_error(s@)),
    {
        let trimmed = trim(s);
        let t = lower_chars(trimmed);
        if chars_is(&t, "none") || chars_is(&t, "off") || chars_is(&t, "0") {
            return Ok(Ecc::Off);
        }
        if chars_is(&t, "rs10") || chars_is(&t, "rs-10") || chars_is(&t, "10%") || chars_is(&t, "10") {
            return Ok(Self::rs10());
        }
        if chars_is(&t, "rs20") || chars_is(&t, "rs-20") || chars_is(&t, "20%") || chars_is(&t, "20") {
            return Ok(Self::rs20());
        }
        if t.len() >= 3 {
            let mut head: Vec<char> = Vec::new();
            head.push(t[0]);
            head.push(t[1]);
            head.push(t[2]);
            assert(head@ =~= t@.take(3));
            if chars_is(&head, "rs:") || chars_is(&head, "rs=") {
                return match parse_u8(&t, 3) {
                    Some(n) => Ok(Self::reed_solomon(n)),
                    None => {
                        let mut msg = "bad ecc `".to_string();
                        msg.append(s);
                        msg.append("`");
                        Err(GlyphixError::InvalidProfile(msg))
                    },
                };
            }
        }
        if t.len() >= 1 && t[t.len() - 1] == '%' {
            let mut body = t.clone();
            body.pop();
            assert(body@ =~= t@.drop_last());
            return match parse_u8(&body, 0) {
                Some(n) => {
                    assert(body@.skip(0) =~= body@);
                    Ok(Self::reed_solomon(n))
                },
                None => {
                    assert(body@.skip(0) =~= body@);
                    let mut msg = "bad ecc `".to_string();
                    msg.append(s);
                    msg.append("`");
                    Err(GlyphixError::InvalidProfile(msg))
                },
            };
        }
        let mut msg = "unknown ecc `".to_string();
        push_lowercase(&mut msg, trimmed);
        msg.append("`; try none, rs10, rs20, rs:15");
        Err(GlyphixError::InvalidProfile(msg))
    }

    /// Parity symbols per RS block (`0` if none).
    pub fn ecc_len(self) -> (n: usize)
        ensures
            n == self.ecc_len_spec(),
    {
        match self {
            Ecc::Off => 0,
            Ecc::ReedSolomon { parity_percent } => {
                let e = (255usize * parity_percent as usize + 99) / 100;
                if e < 2 {
                    2
                } else if e > 128 {
                    128
                } else {
                    e
                }
            },
        }
    }

    /// Max message bytes per block.
    pub fn max_message_len(self) -> (n: usize)
        ensures
            n == self.max_message_spec(),
    {
        match self {
            Ecc::Off => usize::MAX,
            Ecc::ReedSolomon { .. } => 255 - self.ecc_len(),
        }
    }

    /// Length of the coded body for a given original payload length.
    pub fn coded_len(self, payload_len: usize) -> (n: usize)
        requires
            self.coded_len_spec(payload_len as nat) <= usize::MAX,
        ensures
            n == self.coded_len_spec(payload_len as nat),
    {
        match self {
            Ecc::Off => payload_len,
            Ecc::ReedSolomon { .. } => {
                if payload_len == 0 {
                    return 0;
                }
                let max_msg = self.max_message_len();
                let e = self.ecc_len();
                let blocks = (payload_len - 1) / max_msg + 1;
                proof {
                    lemma_blocks_le(payload_len as nat, max_msg as nat);
                    assert(blocks * e <= self.coded_len_spec(payload_len as nat));
                }
                payload_len + blocks * e
            },
        }
    }

    /// Max original payload bytes that fit in `body_budget` coded body bytes.
    pub fn max_payload_for_body(self, body_budget: usize) -> (n: usize)
        requires
            self.coded_len_spec(body_budget as nat) <= usize::MAX,
        ensures
            n <= body_budget,
            self.coded_len_spec(n as nat) <= body_budget,
            forall|m: nat| n < m <= body_budget ==> self.coded_len_spec(m) > body_budget,
    {
        match self {
            Ecc::Off => body_budget,
            Ecc::ReedSolomon { .. } => {
                let e = self.ecc_len();
                let m = self.max_message_len();
                if e == 0 || m == 0 {
                    return 0;
                }
                let mut lo: usize = 0;
                let mut hi: usize = body_budget;
                while lo < hi
                    invariant
                        self is ReedSolomon,
                        lo <= hi <= body_budget,
                        self.coded_len_spec(body_budget as nat) <= usize::MAX,
                        self.coded_len_spec(lo as nat) <= body_budget,
                        forall|k: nat| hi < k <= body_budget ==> self.coded_len_spec(k) > body_budget,
                    decreases hi - lo,
                {
                    let mid = lo + (hi - lo) / 2 + (hi - lo) % 2;
                    proof {
                        self.lemma_coded_len_monotone(mid as nat, body_budget as nat);
                    }
                    if self.coded_len(mid) <= body_budget {
                        lo = mid;
                    } else {
                        proof {
                            assert forall|k: nat| mid - 1 < k <= body_budget implies self.coded_len_spec(k) > body_budget by {
                                self.lemma_coded_len_monotone(mid as nat, k);
                            }
                        }
                        hi = mid - 1;
                    }
                }
                lo
            },
        }
    }

    pub proof fn lemma_coded_len_monotone(self, a: nat, b: nat)
        requires
            a <= b,
        ensures
            self.coded_len_spec(a) <= self.coded_len_spec(b),
    {
        if self is ReedSolomon {
            let m = self.max_message_spec();
            let e = self.ecc_len_spec();
            assert(blocks_for(a, m) <= blocks_for(b, m)) by {
                if a > 0 {
                    lemma_div_is_ordered(a - 1, b - 1, m as int);
                }
            }
            assert(blocks_for(a, m) * e <= blocks_for(b, m) * e) by (nonlinear_arith)
                requires
                    blocks_for(a, m) <= blocks_for(b, m),
            ;
        }
    }

    /// Expand payload to the coded body (message‖parity blocks).
    pub fn encode_body(self, payload: &[u8]) -> (r: Result<Vec<u8>>)
        ensures
            r matches Ok(v) && v@ == self.body_spec(payload@),
            r matches Ok(v) ==> v@.len() == self.coded_len_spec(payload@.len()),
    {
        match self {
            Ecc::Off => {
                let mut out: Vec<u8> = Vec::new();
                out.extend_from_slice(payload);
                Ok(out)
            },
            Ecc::ReedSolomon { .. } => {
                proof {
                    self.lemma_ecc_len_bounds();
                }
                if payload.len() == 0 {
                    assert(self.body_spec(payload@) =~= Seq::<u8>::empty());
                    assert(blocks_for(0, self.max_message_spec()) == 0);
                    assert(self.coded_len_spec(0) == 0);
                    return Ok(Vec::new());
                }
                let ecc_len = self.ecc_len();
                let max_msg = self.max_message_len();
                let ghost e = ecc_len as nat;
                let ghost m = max_msg as nat;
                let mut out: Vec<u8> = Vec::new();
                let mut offset: usize = 0;
                assert(payload@.skip(0) =~= payload@);
                assert(out@ + rs_blocks(e, m, payload@) =~= rs_blocks(e, m, payload@));
                while offset < payload.len()
                    invariant
                        2 <= e <= 128,
                        e + m == 255,
                        ecc_len == e,
                        max_msg == m,
                        e == self.ecc_len_spec(),
                        m == self.max_message_spec(),
                        offset <= payload@.len(),
                        out@ + rs_blocks(e, m, payload@.skip(offset as int)) == rs_blocks(e, m, payload@),
                        out@.len() + lemma_len_target(e, m, payload@.skip(offset as int).len())
                            == lemma_len_target(e, m, payload@.len()),
                    decreases payload@.len() - offset,
                {
                    let take = if payload.len() - offset < max_msg { payload.len() - offset } else { max_msg };
                    let chunk = &payload[offset..offset + take];
                    let block = rs_encode(ecc_len, chunk);
                    proof {
                        assert(block@ =~= rs_codeword(e, chunk@));
                        let tail = payload@.skip(offset as int);
                        assert(chunk@ =~= tail.take(take as int));
                        assert(tail.skip(take as int) =~= payload@.skip(offset + take));
                        if tail.len() <= m {
                            assert(tail.take(take as int) =~= tail);
                            assert(payload@.skip(offset + take).len() == 0);
                        }
                        lemma_rs_blocks_len(e, m, tail);
                        lemma_rs_blocks_len(e, m, payload@.skip(offset + take));
                        lemma_blocks_step(tail.len(), m);
                    }
                    append_codeword(&mut out, block);
                    offset = offset + take;
                }
                proof {
                    assert(payload@.skip(offset as int) =~= Seq::<u8>::empty());
                    lemma_rs_blocks_len(e, m, payload@);
                }
                Ok(out)
            },
        }
    }

    /// Recover the original payload of length `payload_len` from a coded body.
    #[verifier::rlimit(60)]
    #[verifier::spinoff_prover]
    pub fn decode_body(self, coded: &[u8], payload_len: usize) -> (r: Result<Vec<u8>>)
        requires
            payload_len * 8 <= usize::MAX,
            coded@.len() * 8 <= usize::MAX,
            self.coded_len_spec(payload_len as nat) <= usize::MAX,
        ensures
            crate::error::bytes_agree(r, self.decode_body_spec(coded@, payload_len as nat)),
            forall|p: Seq<u8>| coded@ == #[trigger] self.body_spec(p) && p.len() == payload_len
                ==> (r is Ok && r->Ok_0@ == p),
    {
        match self {
            Ecc::Off => {
                if coded.len() < payload_len {
                    return Err(GlyphixError::TruncatedStream {
                        needed: payload_len * 8,
                        available: coded.len() * 8,
                    });
                }
                let mut out: Vec<u8> = Vec::new();
                out.extend_from_slice(&coded[0..payload_len]);
                assert(out@ =~= coded@.take(payload_len as int));
                Ok(out)
            },
            Ecc::ReedSolomon { .. } => {
                proof {
                    self.lemma_ecc_len_bounds();
                }
                if payload_len == 0 {
                    if coded.len() != 0 {
                        return Err(GlyphixError::EccDecodeFailed(
                            "empty payload but non-empty coded body".to_string(),
                        ));
                    }
                    return Ok(Vec::new());
                }
                let expected = self.coded_len(payload_len);
                if coded.len() != expected {
                    proof {
                        assert forall|p: Seq<u8>| coded@ == #[trigger] self.body_spec(p) && p.len() == payload_len implies false by {
                            lemma_rs_blocks_len(self.ecc_len_spec(), self.max_message_spec(), p);
                        }
                    }
                    let mut msg = "coded body length ".to_string();
                    push_decimal(&mut msg, coded.len() as u64);
                    msg.append(" != expected ");
                    push_decimal(&mut msg, expected as u64);
                    msg.append(" for payload_len=");
                    push_decimal(&mut msg, payload_len as u64);
                    return Err(GlyphixError::EccDecodeFailed(msg));
                }
                let ecc_len = self.ecc_len();
                let max_msg = self.max_message_len();
                let ghost e = ecc_len as nat;
                let ghost m = max_msg as nat;
                let mut out: Vec<u8> = Vec::with_capacity(payload_len);
                let mut offset: usize = 0;
                let mut remaining = payload_len;
                proof {
                    assert(coded@.skip(0) =~= coded@);
                    assert forall|r: Seq<u8>| out@ + r == r by {
                        assert(out@ + r =~= r);
                    }
                    assert forall|p: Seq<u8>| coded@ == #[trigger] rs_blocks(e, m, p) && p.len() == payload_len
                        implies out@ == p.take(0) && coded@.skip(0) == rs_blocks(e, m, p.skip(0)) by {
                        assert(p.skip(0) =~= p);
                        assert(p.take(0) =~= out@);
                    }
                }
                while remaining > 0
                    invariant
                        2 <= e <= 128,
                        e + m == 255,
                        ecc_len == e,
                        max_msg == m,
                        e == self.ecc_len_spec(),
                        m == self.max_message_spec(),
                        offset <= coded@.len(),
                        coded@.len() * 8 <= usize::MAX,
                        remaining <= payload_len,
                        self is ReedSolomon,
                        payload_len >= 1,
                        coded@.len() == self.coded_len_spec(payload_len as nat),
                        rs_failure_text(e, m, coded@, payload_len as nat) == rs_failure_text(
                            e,
                            m,
                            coded@.skip(offset as int),
                            remaining as nat,
                        ),
                        rs_unblocks(e, m, coded@, payload_len as nat) == match rs_unblocks(
                            e,
                            m,
                            coded@.skip(offset as int),
                            remaining as nat,
                        ) {
                            Some(rest) => Some(out@ + rest),
                            None => None::<Seq<u8>>,
                        },
                        forall|p: Seq<u8>| coded@ == #[trigger] rs_blocks(e, m, p) && p.len() == payload_len
                            ==> out@ == p.take(payload_len - remaining)
                                && coded@.skip(offset as int) == rs_blocks(e, m, p.skip(payload_len - remaining)),
                    decreases remaining,
                {
                    let msg_len = if remaining < max_msg { remaining } else { max_msg };
                    let block_len = msg_len + ecc_len;
                    if offset + block_len > coded.len() {
                        proof {
                            assert forall|p: Seq<u8>| coded@ == #[trigger] rs_blocks(e, m, p) && p.len() == payload_len implies false by {
                                let q = p.skip(payload_len - remaining);
                                lemma_rs_blocks_len(e, m, q);
                                lemma_blocks_step(q.len(), m);
                            }
                        }
                        assert(rs_unblocks(e, m, coded@.skip(offset as int), remaining as nat) is None);
                        assert(rs_failure_text(e, m, coded@.skip(offset as int), remaining as nat) == "truncated RS block"@);
                        let msg = "truncated RS block".to_string();
                        proof {
                            lemma_message(msg);
                        }
                        return Err(GlyphixError::EccDecodeFailed(msg));
                    }
                    let block = &coded[offset..offset + block_len];
                    let ghost tail = coded@.skip(offset as int);
                    proof {
                        assert(block@ =~= tail.take(block_len as int));
                        assert forall|p: Seq<u8>| coded@ == #[trigger] rs_blocks(e, m, p) && p.len() == payload_len
                            implies block@ == rs_codeword(e, block@.take(msg_len as int)) && block@.take(msg_len as int) == p.skip(payload_len - remaining).take(msg_len as int) by {
                            let q = p.skip(payload_len - remaining);
                            assert(tail == rs_blocks(e, m, q));
                            assert(q.len() == remaining);
                            lemma_rs_blocks_front(e, m, q);
                            let d = q.take(msg_len as int);
                            let cw = rs_codeword(e, d);
                            assert(cw.len() == block_len);
                            assert(tail == cw + rs_blocks(e, m, q.skip(msg_len as int)));
                            assert(block@ =~= cw);
                            assert(cw.take(msg_len as int) =~= d);
                        }
                    }
                    let corrected = rs_correct(ecc_len, block);
                    let ghost cv = corrected;
                    let ghost before = out@;
                    match take_corrected_block(&mut out, msg_len, corrected) {
                        Err(err) => {
                            proof {
                                assert(rs_unblocks(e, m, tail, remaining as nat) is None);
                                match cv {
                                    Err(_) => {
                                        assert(rs_failure_text(e, m, tail, remaining as nat)
                                            == "RS correct failed: "@ + "TooManyErrors"@);
                                    },
                                    Ok(d) => {
                                        assert(rs_failure_text(e, m, tail, remaining as nat)
                                            == "RS data len "@ + decimal(d@.len()) + " != "@ + decimal(msg_len as nat));
                                    },
                                }
                            }
                            return Err(err);
                        },
                        Ok(()) => {
                            proof {
                                let data = cv->Ok_0@;
                                assert(out@ == before + data);
                                assert(data.len() == msg_len);
                                assert(tail.skip(block_len as int) =~= coded@.skip(offset + block_len));
                                assert(rs_failure_text(e, m, tail, remaining as nat) == rs_failure_text(
                                    e, m, coded@.skip(offset + block_len), (remaining - msg_len) as nat));
                                let nxt = rs_unblocks(e, m, coded@.skip(offset + block_len), (remaining - msg_len) as nat);
                                assert(rs_unblocks(e, m, tail, remaining as nat) == match nxt {
                                    Some(rest) => Some(data + rest),
                                    None => None::<Seq<u8>>,
                                });
                                assert forall|rest: Seq<u8>| before + (data + rest) == (before + data) + rest by {
                                    assert(before + (data + rest) =~= (before + data) + rest);
                                }
                                assert forall|p: Seq<u8>| coded@ == #[trigger] rs_blocks(e, m, p) && p.len() == payload_len
                                    implies before + data == p.take(payload_len - remaining + msg_len)
                                        && coded@.skip(offset + block_len) == rs_blocks(e, m, p.skip(payload_len - remaining + msg_len)) by {
                                    let q = p.skip(payload_len - remaining);
                                    lemma_rs_blocks_front(e, m, q);
                                    assert(q.skip(msg_len as int) =~= p.skip(payload_len - remaining + msg_len));
                                    assert(p.take(payload_len - remaining + msg_len) =~= p.take(payload_len - remaining) + q.take(msg_len as int));
                                }
                            }
                            offset = offset + block_len;
                            remaining = remaining - msg_len;
                        },
                    }
                }
                proof {
                    assert(out@ + Seq::<u8>::empty() =~= out@);
                    assert forall|p: Seq<u8>| coded@ == #[trigger] rs_blocks(e, m, p) && p.len() == payload_len implies out@ == p by {
                        assert(p.take(payload_len as int) =~= p);
                    }
                }
                Ok(out)
            },
        }
    }
}

/// Coded length as a function of the payload length (for the body builders).
pub open spec fn lemma_len_target(e: nat, m: nat, len: nat) -> nat {
    len + blocks_for(len, m) * e
}

pub proof fn lemma_blocks_le(len: nat, m: nat)
    requires
        m >= 1,
    ensures
        blocks_for(len, m) <= len,
{
    if len > 0 {
        vstd::arithmetic::div_mod::lemma_div_is_ordered_by_denominator((len - 1) as int, 1, m as int);
    }
}

/// One more block than the remainder after a full message.
pub proof fn lemma_blocks_step(len: nat, m: nat)
    requires
        m >= 1,
    ensures
        len > m ==> blocks_for(len, m) == 1 + blocks_for((len - m) as nat, m),
        0 < len <= m ==> blocks_for(len, m) == 1,
{
    if len > m {
        let q = ((len - m - 1) / (m as int)) as int;
        let r = ((len - m - 1) % (m as int)) as int;
        vstd::arithmetic::div_mod::lemma_fundamental_div_mod((len - m - 1) as int, m as int);
        assert(0 <= r < m);
        assert((len - 1) as int == (q + 1) * (m as int) + r) by (nonlinear_arith)
            requires
                (len - m - 1) as int == (m as int) * q + r,
        ;
        lemma_fundamental_div_mod_converse((len - 1) as int, m as int, q + 1, r);
    }
    if 0 < len <= m {
        lemma_fundamental_div_mod_converse((len - 1) as int, m as int, 0, (len - 1) as int);
    }
}

pub proof fn lemma_rs_blocks_len(e: nat, m: nat, p: Seq<u8>)
    requires
        m >= 1,
        e + m <= 255,
    ensures
        rs_blocks(e, m, p).len() == p.len() + blocks_for(p.len(), m) * e,
    decreases p.len(),
{
    lemma_blocks_step(p.len(), m);
    if p.len() == 0 {
        assert(blocks_for(0, m) == 0);
    } else if p.len() <= m {
        assert(rs_blocks(e, m, p) == rs_codeword(e, p));
        assert(blocks_for(p.len(), m) * e == e);
    } else {
        lemma_rs_blocks_len(e, m, p.skip(m as int));
        let b = blocks_for((p.len() - m) as nat, m);
        assert((1 + b) * e == e + b * e) by (nonlinear_arith);
        assert(rs_blocks(e, m, p) == rs_codeword(e, p.take(m as int)) + rs_blocks(e, m, p.skip(m as int)));
    }
}

/// The first block of `rs_blocks` and what follows it.
pub proof fn lemma_rs_blocks_front(e: nat, m: nat, q: Seq<u8>)
    requires
        m >= 1,
        q.len() > 0,
    ensures
        ({
            let k = if q.len() < m { q.len() } else { m };
            rs_blocks(e, m, q) == rs_codeword(e, q.take(k as int)) + rs_blocks(e, m, q.skip(k as int))
        }),
{
    if q.len() <= m {
        assert(q.take(q.len() as int) =~= q);
        assert(q.skip(q.len() as int) =~= Seq::<u8>::empty());
        assert(rs_codeword(e, q) + Seq::<u8>::empty() =~= rs_codeword(e, q));
    }
}


impl Ecc {
    /// The coded body has the coded length.
    pub proof fn lemma_body_len(self, p: Seq<u8>)
        ensures
            self.body_spec(p).len() == self.coded_len_spec(p.len()),
    {
        if self is ReedSolomon {
            self.lemma_ecc_len_bounds();
            lemma_rs_blocks_len(self.ecc_len_spec(), self.max_message_spec(), p);
        }
    }

    /// Coding at most triples a payload, plus one block of parity.
    pub proof fn lemma_coded_len_bound(self, len: nat)
        ensures
            len <= self.coded_len_spec(len) <= 3 * len + 128,
    {
        if self is ReedSolomon && len > 0 {
            self.lemma_ecc_len_bounds();
            let m = self.max_message_spec() as int;
            let e = self.ecc_len_spec() as int;
            let q = (len - 1) / m;
            assert(q * m <= len - 1) by {
                vstd::arithmetic::div_mod::lemma_fundamental_div_mod((len - 1) as int, m);
            }
            assert((q + 1) * e <= 2 * len + 128) by (nonlinear_arith)
                requires
                    q * m <= len - 1,
                    q >= 0,
                    m >= 127,
                    e <= 128,
                    len >= 1,
            ;
        }
    }
}

/// Every scheme reads back from its wire tag as its canonical scheme, which is
/// the scheme itself for no ECC and for percents `1..=50`, and codes bodies the
/// same way for any well-formed scheme.
pub proof fn lemma_ecc_tag_roundtrip(e: Ecc)
    ensures
        ecc_of_tag(e.tag_spec()) == Some(e.canonical()),
        (e matches Ecc::ReedSolomon { parity_percent } ==> 1 <= parity_percent <= 50) ==> e.canonical() == e,
        e.wf() ==> forall|q: Seq<u8>| #[trigger] e.canonical().body_spec(q) == e.body_spec(q),
        e.wf() ==> forall|c: Seq<u8>, n: nat| #[trigger] e.canonical().decode_body_spec(c, n) == e.decode_body_spec(c, n),
{
    e.lemma_canonical();
}

/// No error correction and the ten and twenty percent schemes read back from
/// their names (any other percent is named just `rs`).
pub proof fn lemma_ecc_name_roundtrip(e: Ecc)
    requires
        e matches Ecc::ReedSolomon { parity_percent } ==> (parity_percent == 10 || parity_percent == 20),
    ensures
        ecc_of_name(ascii_lower(trim_spec(e.name_spec()@))) == Some(e),
{
    reveal_strlit("none");
    reveal_strlit("rs10");
    reveal_strlit("rs20");
    reveal_strlit("off");
    reveal_strlit("0");
    reveal_strlit("rs-10");
    reveal_strlit("10%");
    reveal_strlit("10");
    reveal_strlit("rs-20");
    reveal_strlit("20%");
    reveal_strlit("20");
    let n = e.name_spec()@;
    assert(first_non_ws(n, 0) == 0);
    assert(last_non_ws_end(n, 0, n.len() as int) == n.len());
    assert(trim_spec(n) =~= n);
    assert(ascii_lower(n) =~= n);
    assert(clamp_nat(10, 1, 50) == 10 && clamp_nat(20, 1, 50) == 20);
    if e != Ecc::Off {
        assert(n != "none"@ && n != "off"@ && n != "0"@);
        if e == (Ecc::ReedSolomon { parity_percent: 20 }) {
            assert(n[3] == '0' && "rs10"@[3] == '0' && n[2] == '2' && "rs10"@[2] == '1');
            assert(n != "rs10"@ && n != "rs-10"@ && n != "10%"@ && n != "10"@);
        }
    }
}

} // verus!
