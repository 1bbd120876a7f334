//! Glyph profiles: grid size and palette size \(C\).
//!
//! Bits per glyph are `width * height * log2(palette_size)` for power-of-two \(C\).

use vstd::prelude::*;
use vstd::arithmetic::power2::{pow2, lemma_pow2_unfold, lemma2_to64};
use crate::error::{message, GlyphixError, Result};
use crate::text::{decimal, push_decimal};
use crate::strings::str_is;
use crate::check::Integrity;
use crate::ecc::Ecc;
use crate::codec::{EncodeOptions, capacity_spec, frame_fits, glyphs_needed_result, capacity_payload_bytes, glyphs_needed};

verus! {

broadcast use crate::error::lemma_message;

/// Codec version when ECC is enabled (integrity + ecc tag + length + coded body).
pub const CODEC_VERSION: u8 = 3;

/// Framing without ECC (written when no ECC is requested).
pub const CODEC_VERSION_V2: u8 = 2;

/// Legacy framing (decode-only): version + u32 length + payload, no integrity field.
pub const CODEC_VERSION_V1: u8 = 1;

/// Default hard cap on number of glyphs produced/consumed.
pub const DEFAULT_MAX_GLYPHS: usize = 4096;

/// `n` is a power of two.
pub open spec fn is_pow2_nat(n: nat) -> bool
    decreases n,
{
    if n == 0 {
        false
    } else if n == 1 {
        true
    } else if n % 2 == 1 {
        false
    } else {
        is_pow2_nat(n / 2)
    }
}

/// Base-two logarithm, rounded down (`0` for `0` and `1`).
pub open spec fn log2_nat(n: nat) -> nat
    decreases n,
{
    if n <= 1 {
        0
    } else {
        1 + log2_nat(n / 2)
    }
}

pub proof fn lemma_pow2_log2(n: nat)
    requires
        is_pow2_nat(n),
    ensures
        pow2(log2_nat(n)) == n,
        n >= 2 ==> log2_nat(n) >= 1,
        log2_nat(n) < n,
    decreases n,
{
    if n == 1 {
        lemma2_to64();
    } else {
        lemma_pow2_log2(n / 2);
        lemma_pow2_unfold(log2_nat(n));
    }
}

/// Parameters for one symbol of the algorithmic alphabet.
///
/// Place-value order is fixed project-wide: bottom-right = place 0, then left,
/// then up (see the grid and pack modules).
#[derive(Debug, Clone, Copy, PartialEq, Eq, Hash, Structural)]
pub struct GlyphProfile {
    /// Logical width in cells (at least 1).
    pub width: u32,
    /// Logical height in cells (at least 1).
    pub height: u32,
    /// Number of color indices \(C\) (a power of two, at least 2).
    pub palette_size: u32,
    /// Max glyphs for encode/decode with this profile.
    pub max_glyphs: usize,
}

/// What the constructor checks.
pub open spec fn valid_profile_params(width: u32, height: u32, palette_size: u32, max_glyphs: usize) -> bool {
    &&& width >= 1
    &&& height >= 1
    &&& palette_size >= 2
    &&& is_pow2_nat(palette_size as nat)
    &&& max_glyphs >= 1
    &&& width * height <= usize::MAX / 4
}

/// The error for parameters that `valid_profile_params` rejects: the first broken rule.
pub open spec fn params_error(width: u32, height: u32, palette_size: u32, max_glyphs: usize) -> GlyphixError {
    if width == 0 || height == 0 {
        GlyphixError::InvalidProfile(message("width and height must be ≥ 1"@))
    } else if palette_size < 2 {
        GlyphixError::InvalidProfile(message("palette_size (C) must be ≥ 2"@))
    } else if !is_pow2_nat(palette_size as nat) {
        GlyphixError::InvalidProfile(message(
            "palette_size "@ + decimal(palette_size as nat) + " must be a power of two in MVP bit packing"@,
        ))
    } else if max_glyphs == 0 {
        GlyphixError::InvalidProfile(message("max_glyphs must be ≥ 1"@))
    } else {
        GlyphixError::InvalidProfile(message("grid too large for this process"@))
    }
}

impl GlyphProfile {
    /// Cells per glyph.
    pub open spec fn cells(self) -> nat {
        (self.width * self.height) as nat
    }

    /// Bits per cell: `log2(C)`.
    pub open spec fn bpc(self) -> nat {
        log2_nat(self.palette_size as nat)
    }

    /// Bits per glyph.
    pub open spec fn bpg(self) -> nat {
        self.cells() * self.bpc()
    }

    /// A validated profile whose bits per glyph fit the machine word.
    pub open spec fn wf(self) -> bool {
        &&& valid_profile_params(self.width, self.height, self.palette_size, self.max_glyphs)
        &&& self.bpg() <= usize::MAX
    }

    /// Facts that follow from well-formedness.
    pub proof fn lemma_wf(self)
        requires
            self.wf(),
        ensures
            pow2(self.bpc()) == self.palette_size,
            1 <= self.bpc() <= 31,
            self.cells() >= 1,
            self.bpg() >= self.cells(),
            self.bpg() >= 1,
            self.bpg() == self.cells() * self.bpc(),
    {
        lemma_pow2_log2(self.palette_size as nat);
        lemma2_to64();
        if self.bpc() > 32 {
            vstd::arithmetic::power2::lemma_pow2_strictly_increases(32, self.bpc());
        }
        assert(self.width * self.height >= 1) by (nonlinear_arith)
            requires
                self.width >= 1,
                self.height >= 1,
        ;
        let c = self.cells();
        let b = self.bpc();
        assert(c * b >= c) by (nonlinear_arith)
            requires
                b >= 1,
                c >= 1,
        ;
    }

    /// Build a profile; validates dimensions and palette.
    pub fn new(width: u32, height: u32, palette_size: u32) -> (r: Result<Self>)
        ensures
            r is Ok <==> valid_profile_params(width, height, palette_size, DEFAULT_MAX_GLYPHS),
            r matches Ok(p) ==> p == (GlyphProfile { width, height, palette_size, max_glyphs: DEFAULT_MAX_GLYPHS }),
            r matches Err(e) ==> e.agrees(params_error(width, height, palette_size, DEFAULT_MAX_GLYPHS)),
    {
        Self::with_max_glyphs(width, height, palette_size, DEFAULT_MAX_GLYPHS)
    }

    /// Build a profile with a custom glyph-count hard cap.
    pub fn with_max_glyphs(width: u32, height: u32, palette_size: u32, max_glyphs: usize) -> (r: Result<Self>)
        ensures
            r is Ok <==> valid_profile_params(width, height, palette_size, max_glyphs),
            r matches Ok(p) ==> p == (GlyphProfile { width, height, palette_size, max_glyphs }),
            r matches Err(e) ==> e.agrees(params_error(width, height, palette_size, max_glyphs)),
    {
        if width == 0 || height == 0 {
            return Err(GlyphixError::InvalidProfile("width and height must be ≥ 1".to_string()));
        }
        if palette_size < 2 {
            return Err(GlyphixError::InvalidProfile("palette_size (C) must be ≥ 2".to_string()));
        }
        if !is_power_of_two(palette_size) {
            let mut msg = "palette_size ".to_string();
            push_decimal(&mut msg, palette_size as u64);
            msg.append(" must be a power of two in MVP bit packing");
            return Err(GlyphixError::InvalidProfile(msg));
        }
        if max_glyphs == 0 {
            return Err(GlyphixError::InvalidProfile("max_glyphs must be ≥ 1".to_string()));
        }
        assert(width as u64 * height as u64 <= u64::MAX) by (nonlinear_arith)
            requires
                width <= u32::MAX,
                height <= u32::MAX,
        ;
        let cells: u64 = width as u64 * height as u64;
        if cells > (usize::MAX as u64) / 4 {
            return Err(GlyphixError::InvalidProfile("grid too large for this process".to_string()));
        }
        Ok(GlyphProfile { width, height, palette_size, max_glyphs })
    }

    /// Number of logical cells per glyph.
    pub fn cell_count(&self) -> (n: usize)
        requires
            self.wf(),
        ensures
            n == self.cells(),
    {
        self.width as usize * self.height as usize
    }

    /// Bits needed to store one color index (`log2(C)`).
    pub fn bits_per_cell(&self) -> (b: u32)
        requires
            self.wf(),
        ensures
            b == self.bpc(),
            1 <= b <= 31,
    {
        proof {
            self.lemma_wf();
        }
        let mut v = self.palette_size;
        let mut k: u32 = 0;
        while v > 1
            invariant
                is_pow2_nat(v as nat),
                k + log2_nat(v as nat) == log2_nat(self.palette_size as nat),
                log2_nat(self.palette_size as nat) <= 31,
            decreases v,
        {
            v = v / 2;
            k = k + 1;
        }
        k
    }

    /// Total payload bits carried by one glyph (no framing overhead).
    pub fn bits_per_glyph(&self) -> (b: usize)
        requires
            self.wf(),
        ensures
            b == self.bpg(),
    {
        let c = self.cell_count();
        let k = self.bits_per_cell();
        c * k as usize
    }

    /// Capacity in whole payload bytes for `glyph_count` glyphs under v2 framing with
    /// no integrity trailer (version + integrity tag + u32 length).
    pub fn max_payload_bytes(&self, glyph_count: usize) -> (n: usize)
        requires
            self.wf(),
        ensures
            n == capacity_spec(*self, glyph_count as nat, EncodeOptions { integrity: Integrity::Off, ecc: Ecc::Off }),
    {
        capacity_payload_bytes(self, glyph_count)
    }

    /// Minimum glyphs needed for framed `payload_len` bytes with no integrity trailer.
    pub fn glyphs_needed_for_payload(&self, payload_len: usize) -> (r: Result<usize>)
        requires
            self.wf(),
            frame_fits(*self, payload_len as nat, EncodeOptions { integrity: Integrity::Off, ecc: Ecc::Off }),
        ensures
            r == glyphs_needed_result(*self, payload_len as nat, EncodeOptions { integrity: Integrity::Off, ecc: Ecc::Off }),
    {
        glyphs_needed(self, payload_len, Integrity::Off)
    }

    /// Human-readable preset id when this matches a known preset; else `None`.
    pub fn preset_id(&self) -> (r: Option<&'static str>)
        ensures
            r == preset_id_of(self.width, self.height, self.palette_size),
    {
        if self.width == 8 && self.height == 8 && self.palette_size == 2 {
            Some("bin8")
        } else if self.width == 10 && self.height == 10 && self.palette_size == 2 {
            Some("bin10")
        } else if self.width == 16 && self.height == 16 && self.palette_size == 2 {
            Some("bin16")
        } else if self.width == 8 && self.height == 8 && self.palette_size == 8 {
            Some("c8_8")
        } else if self.width == 8 && self.height == 8 && self.palette_size == 256 {
            Some("c256_8")
        } else if self.width == 8 && self.height == 8 && self.palette_size == 0x0100_0000 {
            Some("rgb24_8")
        } else {
            None
        }
    }
}

/// The preset id whose grid and palette match, first in list order.
pub open spec fn preset_id_of(width: u32, height: u32, palette_size: u32) -> Option<&'static str> {
    if width == 8 && height == 8 && palette_size == 2 {
        Some("bin8")
    } else if width == 10 && height == 10 && palette_size == 2 {
        Some("bin10")
    } else if width == 16 && height == 16 && palette_size == 2 {
        Some("bin16")
    } else if width == 8 && height == 8 && palette_size == 8 {
        Some("c8_8")
    } else if width == 8 && height == 8 && palette_size == 256 {
        Some("c256_8")
    } else if width == 8 && height == 8 && palette_size == 0x0100_0000 {
        Some("rgb24_8")
    } else {
        None
    }
}

/// Power-of-two test by repeated halving.
fn is_power_of_two(n: u32) -> (b: bool)
    ensures
        b == is_pow2_nat(n as nat),
{
    if n == 0 {
        return false;
    }
    let mut v = n;
    while v > 1 && v % 2 == 0
        invariant
            v >= 1,
            is_pow2_nat(v as nat) == is_pow2_nat(n as nat),
        decreases v,
    {
        v = v / 2;
    }
    v == 1
}

/// A preset profile with the default glyph cap.
fn preset_profile(width: u32, height: u32, palette_size: u32) -> (p: GlyphProfile)
    requires
        valid_profile_params(width, height, palette_size, DEFAULT_MAX_GLYPHS),
    ensures
        p == (GlyphProfile { width, height, palette_size, max_glyphs: DEFAULT_MAX_GLYPHS }),
{
    match GlyphProfile::new(width, height, palette_size) {
        Ok(p) => p,
        Err(_) => {
            assert(false);
            GlyphProfile { width, height, palette_size, max_glyphs: DEFAULT_MAX_GLYPHS }
        },
    }
}

pub proof fn lemma_preset_pow2()
    ensures
        is_pow2_nat(2),
        is_pow2_nat(8),
        is_pow2_nat(256),
        is_pow2_nat(0x0100_0000),
        log2_nat(2) == 1,
        log2_nat(8) == 3,
        log2_nat(256) == 8,
        log2_nat(0x0100_0000) == 24,
{
    reveal_with_fuel(is_pow2_nat, 26);
    reveal_with_fuel(log2_nat, 26);
}

/// \(8\times 8\) binary — 64 bits / glyph.
pub fn bin8() -> (p: GlyphProfile)
    ensures
        p == (GlyphProfile { width: 8, height: 8, palette_size: 2, max_glyphs: DEFAULT_MAX_GLYPHS }),
        p.wf(),
        p.bpg() == 64,
{
    proof { lemma_preset_pow2(); }
    let p = preset_profile(8, 8, 2);
    assert(p.cells() == 64);
    assert(p.bpc() == 1);
    assert(valid_profile_params(8, 8, 2, DEFAULT_MAX_GLYPHS));
    p
}

/// \(10\times 10\) binary — 100 bits / glyph.
pub fn bin10() -> (p: GlyphProfile)
    ensures
        p == (GlyphProfile { width: 10, height: 10, palette_size: 2, max_glyphs: DEFAULT_MAX_GLYPHS }),
        p.wf(),
        p.bpg() == 100,
{
    proof { lemma_preset_pow2(); }
    let p = preset_profile(10, 10, 2);
    assert(p.cells() == 100);
    assert(p.bpc() == 1);
    assert(valid_profile_params(10, 10, 2, DEFAULT_MAX_GLYPHS));
    p
}

/// \(16\times 16\) binary — 256 bits / glyph.
pub fn bin16() -> (p: GlyphProfile)
    ensures
        p == (GlyphProfile { width: 16, height: 16, palette_size: 2, max_glyphs: DEFAULT_MAX_GLYPHS }),
        p.wf(),
        p.bpg() == 256,
{
    proof { lemma_preset_pow2(); }
    let p = preset_profile(16, 16, 2);
    assert(p.cells() == 256);
    assert(p.bpc() == 1);
    assert(valid_profile_params(16, 16, 2, DEFAULT_MAX_GLYPHS));
    p
}

/// \(8\times 8\) with 8 colors — 192 bits / glyph.
pub fn c8_8() -> (p: GlyphProfile)
    ensures
        p == (GlyphProfile { width: 8, height: 8, palette_size: 8, max_glyphs: DEFAULT_MAX_GLYPHS }),
        p.wf(),
        p.bpg() == 192,
{
    proof { lemma_preset_pow2(); }
    let p = preset_profile(8, 8, 8);
    assert(p.cells() == 64);
    assert(p.bpc() == 3);
    assert(valid_profile_params(8, 8, 8, DEFAULT_MAX_GLYPHS));
    p
}

/// \(8\times 8\) with 256 grayscale indices — 512 bits / glyph.
pub fn c256_8() -> (p: GlyphProfile)
    ensures
        p == (GlyphProfile { width: 8, height: 8, palette_size: 256, max_glyphs: DEFAULT_MAX_GLYPHS }),
        p.wf(),
        p.bpg() == 512,
{
    proof { lemma_preset_pow2(); }
    let p = preset_profile(8, 8, 256);
    assert(p.cells() == 64);
    assert(p.bpc() == 8);
    assert(valid_profile_params(8, 8, 256, DEFAULT_MAX_GLYPHS));
    p
}

/// \(8\times 8\) with full 24-bit RGB (\(C = 2^{24}\)) — 1536 bits / glyph.
pub fn rgb24_8() -> (p: GlyphProfile)
    ensures
        p == (GlyphProfile { width: 8, height: 8, palette_size: 0x0100_0000, max_glyphs: DEFAULT_MAX_GLYPHS }),
        p.wf(),
        p.bpg() == 1536,
{
    proof { lemma_preset_pow2(); }
    let p = preset_profile(8, 8, 0x0100_0000);
    assert(p.cells() == 64);
    assert(p.bpc() == 24);
    assert(valid_profile_params(8, 8, 0x0100_0000, DEFAULT_MAX_GLYPHS));
    p
}

/// The preset named `id`, if any.
pub open spec fn preset_spec(id: Seq<char>) -> Option<GlyphProfile> {
    let d = DEFAULT_MAX_GLYPHS;
    if id == "bin8"@ {
        Some(GlyphProfile { width: 8, height: 8, palette_size: 2, max_glyphs: d })
    } else if id == "bin10"@ {
        Some(GlyphProfile { width: 10, height: 10, palette_size: 2, max_glyphs: d })
    } else if id == "bin16"@ {
        Some(GlyphProfile { width: 16, height: 16, palette_size: 2, max_glyphs: d })
    } else if id == "c8_8"@ {
        Some(GlyphProfile { width: 8, height: 8, palette_size: 8, max_glyphs: d })
    } else if id == "c256_8"@ {
        Some(GlyphProfile { width: 8, height: 8, palette_size: 256, max_glyphs: d })
    } else if id == "rgb24_8"@ {
        Some(GlyphProfile { width: 8, height: 8, palette_size: 0x0100_0000, max_glyphs: d })
    } else {
        None
    }
}

/// Look up a preset by id (`"bin8"`, `"bin10"`, …).
pub fn preset(id: &str) -> (r: Result<GlyphProfile>)
    ensures
        r is Ok <==> preset_spec(id@) is Some,
        r matches Ok(p) ==> Some(p) == preset_spec(id@) && p.wf(),
        r matches Err(e) ==> e.agrees(GlyphixError::InvalidProfile(message(
            "unknown preset `"@ + id@ + "`; try bin8, bin10, bin16, c8_8, c256_8, rgb24_8"@,
        ))),
{
    if str_is(id, "bin8") {
        Ok(bin8())
    } else if str_is(id, "bin10") {
        Ok(bin10())
    } else if str_is(id, "bin16") {
        Ok(bin16())
    } else if str_is(id, "c8_8") {
        Ok(c8_8())
    } else if str_is(id, "c256_8") {
        Ok(c256_8())
    } else if str_is(id, "rgb24_8") {
        Ok(rgb24_8())
    } else {
        let mut msg = "unknown preset `".to_string();
        msg.append(id);
        msg.append("`; try bin8, bin10, bin16, c8_8, c256_8, rgb24_8");
        Err(GlyphixError::InvalidProfile(msg))
    }
}

/// The ids of the presets, in order.
pub open spec fn preset_id_list() -> Seq<Seq<char>> {
    seq!["bin8"@, "bin10"@, "bin16"@, "c8_8"@, "c256_8"@, "rgb24_8"@]
}

/// List known preset ids.
pub fn preset_ids() -> (r: Vec<&'static str>)
    ensures
        r@.map_values(|s: &'static str| s@) == preset_id_list(),
{
    let v = vec!["bin8", "bin10", "bin16", "c8_8", "c256_8", "rgb24_8"];
    assert(v@.map_values(|s: &'static str| s@) =~= preset_id_list());
    v
}

/// Every listed id names a valid preset, and that preset is identified by the
/// same id.
pub proof fn lemma_presets_listed(i: int)
    requires
        0 <= i < preset_id_list().len(),
    ensures
        preset_spec(preset_id_list()[i]) is Some,
        preset_spec(preset_id_list()[i])->Some_0.wf(),
        ({
            let p = preset_spec(preset_id_list()[i])->Some_0;
            preset_id_of(p.width, p.height, p.palette_size) matches Some(id) && id@ == preset_id_list()[i]
        }),
{
    reveal_strlit("bin8");
    reveal_strlit("bin10");
    reveal_strlit("bin16");
    reveal_strlit("c8_8");
    reveal_strlit("c256_8");
    reveal_strlit("rgb24_8");
    lemma_preset_pow2();
    let id = preset_id_list()[i];
    let b8 = "bin8"@;
    let b10 = "bin10"@;
    let b16 = "bin16"@;
    let c8 = "c8_8"@;
    let c256 = "c256_8"@;
    assert(b8.len() == 4 && b10.len() == 5 && b16.len() == 5 && c8.len() == 4 && c256.len() == 6);
    assert(b8[0] == 'b' && c8[0] == 'c' && b10[4] == '0' && b16[4] == '6');
    assert(b8 != c8 && b10 != b16);
    let p = preset_spec(id)->Some_0;
    if i == 0 {
        assert(id == b8);
        assert(p == (GlyphProfile { width: 8, height: 8, palette_size: 2, max_glyphs: DEFAULT_MAX_GLYPHS }));
        assert(p.cells() == 64) by (nonlinear_arith)
            requires
                p.width == 8,
                p.height == 8,
                p.cells() == (p.width * p.height) as nat,
        ;
        assert(p.bpc() == 1);
    } else if i == 1 {
        assert(id == b10);
        assert(p == (GlyphProfile { width: 10, height: 10, palette_size: 2, max_glyphs: DEFAULT_MAX_GLYPHS }));
        assert(p.cells() == 100 && p.bpc() == 1);
    } else if i == 2 {
        assert(id == b16);
        assert(p == (GlyphProfile { width: 16, height: 16, palette_size: 2, max_glyphs: DEFAULT_MAX_GLYPHS }));
        assert(p.cells() == 256 && p.bpc() == 1);
    } else if i == 3 {
        assert(id == c8);
        assert(p == (GlyphProfile { width: 8, height: 8, palette_size: 8, max_glyphs: DEFAULT_MAX_GLYPHS }));
        assert(p.cells() == 64) by (nonlinear_arith)
            requires
                p.width == 8,
                p.height == 8,
                p.cells() == (p.width * p.height) as nat,
        ;
        assert(p.bpc() == 3);
    } else if i == 4 {
        assert(id == c256);
        assert(p == (GlyphProfile { width: 8, height: 8, palette_size: 256, max_glyphs: DEFAULT_MAX_GLYPHS }));
        assert(p.cells() == 64) by (nonlinear_arith)
            requires
                p.width == 8,
                p.height == 8,
                p.cells() == (p.width * p.height) as nat,
        ;
        assert(p.bpc() == 8);
    } else {
        assert(id == "rgb24_8"@);
        assert(id != b8 && id != b10 && id != b16 && id != c8 && id != c256);
        assert(p == (GlyphProfile { width: 8, height: 8, palette_size: 0x0100_0000, max_glyphs: DEFAULT_MAX_GLYPHS }));
        assert(p.cells() == 64) by (nonlinear_arith)
            requires
                p.width == 8,
                p.height == 8,
                p.cells() == (p.width * p.height) as nat,
        ;
        assert(p.bpc() == 24);
    }
}
/// The preset with id `id` has width `w`, height `h` and palette `c` (its glyph
/// cap aside).
pub open spec fn preset_has_shape(id: Seq<char>, w: u32, h: u32, c: u32) -> bool {
    preset_spec(id) matches Some(q) && q.width == w && q.height == h && q.palette_size == c
}

/// A profile has a preset id exactly when a listed preset has its width, height
/// and palette (the glyph cap aside), and the id is that preset's.
pub proof fn lemma_preset_id_matches(w: u32, h: u32, c: u32)
    ensures
        preset_id_of(w, h, c) matches Some(id) ==> preset_id_list().contains(id@) && preset_has_shape(id@, w, h, c),
        preset_id_of(w, h, c) is None ==> forall|i: int| 0 <= i < preset_id_list().len()
            ==> !#[trigger] preset_has_shape(preset_id_list()[i], w, h, c),
{
    reveal_strlit("bin8");
    reveal_strlit("bin10");
    reveal_strlit("bin16");
    reveal_strlit("c8_8");
    reveal_strlit("c256_8");
    reveal_strlit("rgb24_8");
    let l = preset_id_list();
    let b8 = "bin8"@;
    let b10 = "bin10"@;
    let b16 = "bin16"@;
    let c8 = "c8_8"@;
    let c256 = "c256_8"@;
    let r24 = "rgb24_8"@;
    assert(b8.len() == 4 && b10.len() == 5 && b16.len() == 5 && c8.len() == 4 && c256.len() == 6 && r24.len() == 7);
    assert(b8[0] == 'b' && c8[0] == 'c' && b10[4] == '0' && b16[4] == '6');
    assert(b8 != c8 && b10 != b16);
    assert(l[0] == b8 && l[1] == b10 && l[2] == b16 && l[3] == c8 && l[4] == c256 && l[5] == r24);
    if let Some(id) = preset_id_of(w, h, c) {
        if id@ == b8 { assert(l.contains(l[0])); }
        if id@ == b10 { assert(l.contains(l[1])); }
        if id@ == b16 { assert(l.contains(l[2])); }
        if id@ == c8 { assert(l.contains(l[3])); }
        if id@ == c256 { assert(l.contains(l[4])); }
        if id@ == r24 { assert(l.contains(l[5])); }
    }
}

} // verus!
