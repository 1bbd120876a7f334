//! Color index ↔ sRGB mapping for profiles.
//!
//! | Palette \(C\) | Mapping |
//! |---------------|---------|
//! | 2 | \(0\) = black `#000000`, \(1\) = white `#FFFFFF` |
//! | 8 | 3-bit RGB \(0bRGB\): each bit expands to 0 or 255 |
//! | 256 | grayscale \(i \mapsto (i,i,i)\) |
//! | \(2^{24}\) | packed `#RRGGBB` as 24-bit integer |
//! | other | the low `trailing_zeros(C)` bits split over R, G, B (see [`index_to_rgb`]) |

use vstd::prelude::*;
use vstd::arithmetic::power2::{pow2, lemma2_to64, lemma_pow2_pos, lemma_pow2_adds, lemma_pow2_strictly_increases};
use vstd::arithmetic::div_mod::lemma_div_denominator;
use vstd::bits::{low_bits_mask, lemma_u32_shl_is_mul, lemma_u32_shr_is_div, lemma_u32_low_bits_mask_is_mod, lemma_u32_pow2_no_overflow};
use crate::error::{message, GlyphixError, Result, result_agrees};
use crate::profile::{GlyphProfile, is_pow2_nat, log2_nat, lemma_pow2_log2};

verus! {

broadcast use crate::error::lemma_message;

/// sRGB triple (no alpha).
pub type Rgb = [u8; 3];

/// Index bits given to red when `bits` bits are split as evenly as possible.
pub open spec fn red_bits(bits: nat) -> nat {
    bits / 3 + if bits % 3 > 0 { 1nat } else { 0nat }
}

/// Index bits given to green.
pub open spec fn green_bits(bits: nat) -> nat {
    bits / 3 + if bits % 3 > 1 { 1nat } else { 0nat }
}

/// Index bits given to blue.
pub open spec fn blue_bits(bits: nat) -> nat {
    bits / 3
}

/// An `nbits`-bit channel value spread over `0..=255`.
pub open spec fn expand_spec(v: nat, nbits: nat) -> u8 {
    if nbits == 0 {
        0
    } else if nbits >= 8 {
        (v % 256) as u8
    } else {
        ((v * 255) / ((pow2(nbits) - 1) as nat)) as u8
    }
}

/// Channel field values of `index` when its low `bits` bits are split R, G, B
/// (most significant bits to red).
pub open spec fn channel_fields(bits: nat, index: nat) -> (nat, nat, nat) {
    let val = index % pow2(bits);
    let bg = green_bits(bits);
    let bb = blue_bits(bits);
    ((val / pow2(bg + bb)) % pow2(red_bits(bits)), (val / pow2(bb)) % pow2(bg), val % pow2(bb))
}

/// Colors of a generic palette with `bits` usable index bits.
pub open spec fn generic_rgb(bits: nat, index: nat) -> Seq<u8> {
    let f = channel_fields(bits, index);
    seq![
        expand_spec(f.0, red_bits(bits)),
        expand_spec(f.1, green_bits(bits)),
        expand_spec(f.2, blue_bits(bits)),
    ]
}

/// `v` read as packed `0xRRGGBB`.
pub open spec fn packed_rgb(v: nat) -> Seq<u8> {
    seq![((v / 65536) % 256) as u8, ((v / 256) % 256) as u8, (v % 256) as u8]
}

/// A channel fully on or off.
pub open spec fn full(on: bool) -> u8 {
    if on { 255 } else { 0 }
}

/// Number of trailing zero bits of `n` (32 for zero).
pub open spec fn trailing_zeros_spec(n: nat) -> nat
    decreases n,
{
    if n == 0 {
        32
    } else if n % 2 == 1 {
        0
    } else {
        1 + trailing_zeros_spec(n / 2)
    }
}

/// sRGB of color `index` under palette size `palette`.
pub open spec fn rgb_spec(palette: u32, index: u32) -> Seq<u8> {
    if palette == 2 {
        if index == 0 { seq![0u8, 0u8, 0u8] } else { seq![255u8, 255u8, 255u8] }
    } else if palette == 8 {
        seq![full((index / 4) % 2 == 1), full((index / 2) % 2 == 1), full(index % 2 == 1)]
    } else if palette == 256 {
        seq![index as u8, index as u8, index as u8]
    } else if palette == 0x0100_0000 {
        packed_rgb(index as nat)
    } else if trailing_zeros_spec(palette as nat) <= 24 {
        generic_rgb(trailing_zeros_spec(palette as nat), index as nat)
    } else {
        packed_rgb(index as nat % 0x0100_0000)
    }
}

/// `1 << n` is `2^n`.
proof fn lemma_shl_one(n: u32)
    requires
        n < 32,
    ensures
        (1u32 << n) as nat == pow2(n as nat),
        pow2(n as nat) <= u32::MAX,
{
    lemma_u32_pow2_no_overflow(n as nat);
    lemma_u32_shl_is_mul(1, n);
}

/// Masking with `2^n - 1` is reduction modulo `2^n`.
proof fn lemma_mask_is_mod(x: u32, n: u32, m: u32)
    requires
        n < 32,
        m == pow2(n as nat) - 1,
    ensures
        x & m == x as nat % pow2(n as nat),
{
    lemma_u32_pow2_no_overflow(n as nat);
    lemma_pow2_pos(n as nat);
    lemma_u32_low_bits_mask_is_mod(x, n as nat);
    assert(low_bits_mask(n as nat) as u32 == m);
}

/// Spread an `nbits`-bit field value over `0..=255`.
fn expand_channel(bits_val: u32, nbits: u32) -> (c: u8)
    requires
        nbits <= 24,
        bits_val < pow2(nbits as nat),
    ensures
        c == expand_spec(bits_val as nat, nbits as nat),
{
    if nbits == 0 {
        return 0;
    }
    if nbits >= 8 {
        proof {
            lemma2_to64();
            lemma_mask_is_mod(bits_val, 8, 0xFF);
        }
        return (bits_val & 0xFF) as u8;
    }
    proof {
        lemma_shl_one(nbits);
        lemma_pow2_strictly_increases(nbits as nat, 8);
        lemma2_to64();
    }
    let max = (1u32 << nbits) - 1;
    if max == 0 {
        return 0;
    }
    proof {
        assert(bits_val * 255 <= max * 255) by (nonlinear_arith)
            requires
                bits_val <= max,
        ;
        assert((bits_val * 255) / (max as int) <= 255) by (nonlinear_arith)
            requires
                bits_val <= max,
                max >= 1,
        ;
    }
    ((bits_val * 255) / max) as u8
}

/// Map a color index to sRGB for the given palette size.
pub fn index_to_rgb(palette_size: u32, index: u32) -> (r: Result<Rgb>)
    ensures
        r is Ok <==> index < palette_size,
        r matches Ok(c) ==> c@ == rgb_spec(palette_size, index),
        r matches Err(e) ==> e == (GlyphixError::ColorOutOfRange { index, palette_size }),
{
    if index >= palette_size {
        return Err(GlyphixError::ColorOutOfRange { index, palette_size });
    }
    if palette_size == 2 {
        let c: Rgb = if index == 0 { [0, 0, 0] } else { [255, 255, 255] };
        assert(c@ =~= rgb_spec(palette_size, index));
        Ok(c)
    } else if palette_size == 8 {
        let r: u8 = if index & 0b100 != 0 { 255 } else { 0 };
        let g: u8 = if index & 0b010 != 0 { 255 } else { 0 };
        let b: u8 = if index & 0b001 != 0 { 255 } else { 0 };
        proof {
            assert((index & 4 != 0) == ((index / 4) % 2 == 1)) by (bit_vector);
            assert((index & 2 != 0) == ((index / 2) % 2 == 1)) by (bit_vector);
            assert((index & 1 != 0) == (index % 2 == 1)) by (bit_vector);
        }
        let c: Rgb = [r, g, b];
        assert(c@ =~= rgb_spec(palette_size, index));
        Ok(c)
    } else if palette_size == 256 {
        let v = index as u8;
        let c: Rgb = [v, v, v];
        assert(c@ =~= rgb_spec(palette_size, index));
        Ok(c)
    } else if palette_size == 0x0100_0000 {
        let c = packed_channels(index);
        Ok(c)
    } else {
        let bits = trailing_zeros(palette_size);
        if bits <= 24 {
            proof {
                lemma_shl_one(bits);
                lemma_pow2_pos(bits as nat);
            }
            let val = index & ((1u32 << bits) - 1);
            proof {
                lemma_mask_is_mod(index, bits, ((1u32 << bits) - 1) as u32);
                lemma_pow2_pos(bits as nat);
            }
            let br = bits / 3 + if bits % 3 > 0 { 1 } else { 0 };
            let bg = bits / 3 + if bits % 3 > 1 { 1 } else { 0 };
            let bb = bits / 3;
            let ghost f = channel_fields(bits as nat, index as nat);
            proof {
                assert(br == red_bits(bits as nat));
                assert(bg == green_bits(bits as nat));
                assert(bb == blue_bits(bits as nat));
                assert(br + bg + bb == bits);
            }
            let r_bits = if br > 0 {
                proof {
                    lemma_u32_shr_is_div(val, (bg + bb) as u32);
                    lemma_shl_one(br);
                    lemma_pow2_pos(br as nat);
                    lemma_mask_is_mod(val >> ((bg + bb) as u32), br, ((1u32 << br) - 1) as u32);
                }
                (val >> (bg + bb)) & ((1 << br) - 1)
            } else {
                proof {
                    assert(pow2(0) == 1) by {
                        lemma2_to64();
                    }
                }
                0
            };
            let g_bits = if bg > 0 {
                proof {
                    lemma_u32_shr_is_div(val, bb);
                    lemma_shl_one(bg);
                    lemma_pow2_pos(bg as nat);
                    lemma_mask_is_mod(val >> bb, bg, ((1u32 << bg) - 1) as u32);
                }
                (val >> bb) & ((1 << bg) - 1)
            } else {
                proof {
                    assert(pow2(0) == 1) by {
                        lemma2_to64();
                    }
                }
                0
            };
            let b_bits = if bb > 0 {
                proof {
                    lemma_shl_one(bb);
                    lemma_pow2_pos(bb as nat);
                    lemma_mask_is_mod(val, bb, ((1u32 << bb) - 1) as u32);
                }
                val & ((1 << bb) - 1)
            } else {
                proof {
                    assert(pow2(0) == 1) by {
                        lemma2_to64();
                    }
                }
                0
            };
            proof {
                assert(r_bits == f.0);
                assert(g_bits == f.1);
                assert(b_bits == f.2);
                lemma_pow2_pos(br as nat);
                lemma_pow2_pos(bg as nat);
                lemma_pow2_pos(bb as nat);
                lemma_pow2_strictly_increases(br as nat, 25);
                lemma_pow2_strictly_increases(bg as nat, 25);
                lemma_pow2_strictly_increases(bb as nat, 25);
            }
            let c: Rgb = [expand_channel(r_bits, br), expand_channel(g_bits, bg), expand_channel(b_bits, bb)];
            assert(c@ =~= rgb_spec(palette_size, index));
            Ok(c)
        } else {
            let v = index & 0xFF_FF_FF;
            proof {
                assert(index & 0xFF_FF_FF == index % 0x0100_0000) by (bit_vector);
            }
            let c = packed_channels(v);
            assert(c@ =~= rgb_spec(palette_size, index));
            Ok(c)
        }
    }
}

/// Number of trailing zero bits of `n` (32 for zero).
fn trailing_zeros(n: u32) -> (t: u32)
    ensures
        t == trailing_zeros_spec(n as nat),
{
    if n == 0 {
        return 32;
    }
    let mut m = n;
    let mut t: u32 = 0;
    proof {
        lemma2_to64();
    }
    while m % 2 == 0
        invariant
            m > 0,
            t < 32,
            t + trailing_zeros_spec(m as nat) == trailing_zeros_spec(n as nat),
            m as nat * pow2(t as nat) == n,
        decreases m,
    {
        proof {
            lemma_pow2_adds(t as nat, 1);
            lemma2_to64();
            if t >= 31 {
                assert(t == 31);
                assert(m as nat * pow2(t as nat) >= 2 * pow2(t as nat)) by (nonlinear_arith)
                    requires
                        m >= 2,
                        pow2(t as nat) > 0,
                ;
                assert(false);
            }
            assert((m / 2) as nat * pow2((t + 1) as nat) == n) by (nonlinear_arith)
                requires
                    m % 2 == 0,
                    m as nat * pow2(t as nat) == n,
                    pow2((t + 1) as nat) == pow2(t as nat) * 2,
            ;
        }
        m = m / 2;
        t = t + 1;
    }
    t
}

/// `v` split into its packed `0xRRGGBB` channels.
fn packed_channels(v: u32) -> (c: Rgb)
    ensures
        c@ == packed_rgb(v as nat),
{
    let r = ((v >> 16) & 0xFF) as u8;
    let g = ((v >> 8) & 0xFF) as u8;
    let b = (v & 0xFF) as u8;
    proof {
        assert((v >> 16) & 0xFF == (v / 65536) % 256) by (bit_vector);
        assert((v >> 8) & 0xFF == (v / 256) % 256) by (bit_vector);
        assert(v & 0xFF == v % 256) by (bit_vector);
    }
    let c: Rgb = [r, g, b];
    assert(c@ =~= packed_rgb(v as nat));
    c
}


/// The unique `nbits`-bit field value that spreads to `byte`, as an index part;
/// errors mirror a failed inversion.
pub open spec fn compress_spec(byte: u8, nbits: nat) -> Result<u32> {
    if nbits == 0 {
        if byte == 0 {
            Ok(0)
        } else {
            Err(GlyphixError::UnmappedColor { r: byte, g: 0, b: 0, palette_size: 0 })
        }
    } else if nbits >= 8 {
        Ok(byte as u32)
    } else if exists|v: nat| v < pow2(nbits) && expand_spec(v, nbits) == byte {
        Ok((choose|v: nat| v < pow2(nbits) && expand_spec(v, nbits) == byte) as u32)
    } else {
        Err(GlyphixError::UnmappedColor { r: byte, g: 0, b: 0, palette_size: pow2(nbits) as u32 })
    }
}

/// Some index below `palette` has color `rgb`.
pub open spec fn has_preimage(palette: u32, rgb: Seq<u8>) -> bool {
    exists|i: u32| i < palette && rgb_spec(palette, i) == rgb
}

/// `i` is the least index below `palette` with color `rgb`.
pub open spec fn is_least_preimage(palette: u32, rgb: Seq<u8>, i: u32) -> bool {
    &&& i < palette
    &&& rgb_spec(palette, i) == rgb
    &&& forall|j: u32| j < i ==> rgb_spec(palette, j) != rgb
}

/// The least index below `palette` with color `rgb`.
pub open spec fn least_preimage(palette: u32, rgb: Seq<u8>) -> u32 {
    choose|i: u32| is_least_preimage(palette, rgb, i)
}

/// The palette has its own fixed mapping.
pub open spec fn is_named_palette(palette: u32) -> bool {
    palette == 2 || palette == 8 || palette == 256 || palette == 0x0100_0000
}

/// The first channel of a generic palette that cannot be inverted.
pub open spec fn compress_error(palette: u32, bits: nat, rgb: Seq<u8>) -> Result<u32> {
    match compress_spec(rgb[0], red_bits(bits)) {
        Err(e) => Err(e),
        Ok(_) => match compress_spec(rgb[1], green_bits(bits)) {
            Err(e) => Err(e),
            Ok(_) => match compress_spec(rgb[2], blue_bits(bits)) {
                Err(e) => Err(e),
                Ok(_) => Err(GlyphixError::UnmappedColor { r: rgb[0], g: rgb[1], b: rgb[2], palette_size: palette }),
            },
        },
    }
}

/// The index `rgb_to_index` reads from a color: the least index with that color,
/// when there is one.
pub open spec fn rgb_index_spec(palette: u32, rgb: Seq<u8>) -> Result<u32> {
    if !is_named_palette(palette) && trailing_zeros_spec(palette as nat) > 24 {
        Err(GlyphixError::InvalidProfile(message(
            "cannot invert color map for palette with >24 bits/cell from RGB alone"@,
        )))
    } else if has_preimage(palette, rgb) {
        Ok(least_preimage(palette, rgb))
    } else if is_named_palette(palette) || palette <= 4096 {
        Err(GlyphixError::UnmappedColor { r: rgb[0], g: rgb[1], b: rgb[2], palette_size: palette })
    } else {
        compress_error(palette, trailing_zeros_spec(palette as nat), rgb)
    }
}

/// Spreading over `0..=255` keeps distinct field values distinct.
pub proof fn lemma_expand_injective(a: nat, b: nat, n: nat)
    requires
        n <= 8,
        a < pow2(n),
        b < pow2(n),
        expand_spec(a, n) == expand_spec(b, n),
    ensures
        a == b,
{
    lemma2_to64();
    if n == 0 {
    } else if n == 8 {
    } else {
        lemma_pow2_strictly_increases(n, 8);
        let m = (pow2(n) - 1) as nat;
        assert(1 <= m <= 255);
        if a != b {
            let lo = if a < b { a } else { b };
            let hi = if a < b { b } else { a };
            assert((lo * 255) / m < (hi * 255) / m) by (nonlinear_arith)
                requires
                    lo < hi,
                    1 <= m <= 255,
            {
                let q1 = (lo * 255) / m;
                let q2 = (hi * 255) / m;
                vstd::arithmetic::div_mod::lemma_fundamental_div_mod((lo * 255) as int, m as int);
                vstd::arithmetic::div_mod::lemma_fundamental_div_mod((hi * 255) as int, m as int);
            }
            assert((hi * 255) / m <= 255) by (nonlinear_arith)
                requires
                    hi <= m,
                    1 <= m,
            ;
            assert(false);
        }
    }
}

/// A field value fits its width after spreading.
proof fn lemma_fields_bounds(bits: nat, index: nat)
    ensures
        channel_fields(bits, index).0 < pow2(red_bits(bits)),
        channel_fields(bits, index).1 < pow2(green_bits(bits)),
        channel_fields(bits, index).2 < pow2(blue_bits(bits)),
        red_bits(bits) + green_bits(bits) + blue_bits(bits) == bits,
{
    lemma_pow2_pos(red_bits(bits));
    lemma_pow2_pos(green_bits(bits));
    lemma_pow2_pos(blue_bits(bits));
    lemma_pow2_pos(bits);
    lemma_pow2_pos(green_bits(bits) + blue_bits(bits));
    lemma_pow2_pos(blue_bits(bits));
}

/// An index below `2^bits` is put back together from its channel fields.
proof fn lemma_fields_compose(bits: nat, x: nat, y: nat, z: nat)
    requires
        x < pow2(red_bits(bits)),
        y < pow2(green_bits(bits)),
        z < pow2(blue_bits(bits)),
    ensures
        x * pow2(green_bits(bits) + blue_bits(bits)) + y * pow2(blue_bits(bits)) + z < pow2(bits),
        channel_fields(bits, x * pow2(green_bits(bits) + blue_bits(bits)) + y * pow2(blue_bits(bits)) + z) == (x, y, z),
{
    let br = red_bits(bits);
    let bg = green_bits(bits);
    let bb = blue_bits(bits);
    lemma_fields_bounds(bits, 0);
    lemma_pow2_adds(bg, bb);
    lemma_pow2_adds(br, bg + bb);
    assert(br + (bg + bb) == bits);
    let pb = pow2(bb);
    let pg = pow2(bg);
    let pr = pow2(br);
    lemma_pow2_pos(bb);
    lemma_pow2_pos(bg);
    lemma_pow2_pos(br);
    let low = y * pb + z;
    let v = x * (pg * pb) + low;
    assert(low < pg * pb) by (nonlinear_arith)
        requires
            low == y * pb + z,
            y < pg,
            z < pb,
    ;
    assert(v < pr * (pg * pb)) by (nonlinear_arith)
        requires
            x < pr,
            low < pg * pb,
            v == x * (pg * pb) + low,
    ;
    assert(pow2(bits) == pr * (pg * pb));
    vstd::arithmetic::div_mod::lemma_small_mod(v, pow2(bits));
    // Red field.
    lemma_fundamental_div_mod_converse_nat(v, pg * pb, x, low);
    vstd::arithmetic::div_mod::lemma_small_mod(x, pr);
    // Green field.
    assert(v == (x * pg + y) * pb + z) by (nonlinear_arith)
        requires
            v == x * (pg * pb) + low,
            low == y * pb + z,
    ;
    lemma_fundamental_div_mod_converse_nat(v, pb, x * pg + y, z);
    lemma_fundamental_div_mod_converse_nat(x * pg + y, pg, x, y);
    // Blue field: z % pb == z.
    assert(v / pow2(bg + bb) == x);
    assert(x * pow2(bg + bb) + y * pow2(bb) + z == v);
}

proof fn lemma_fundamental_div_mod_converse_nat(v: nat, d: nat, q: nat, r: nat)
    requires
        d > 0,
        r < d,
        v == q * d + r,
    ensures
        v / d == q,
        v % d == r,
{
    vstd::arithmetic::div_mod::lemma_fundamental_div_mod_converse(v as int, d as int, q as int, r as int);
}

/// An index below `2^bits` equals the composition of its channel fields.
proof fn lemma_fields_decompose(bits: nat, v: nat)
    requires
        v < pow2(bits),
    ensures
        v == channel_fields(bits, v).0 * pow2(green_bits(bits) + blue_bits(bits))
            + channel_fields(bits, v).1 * pow2(blue_bits(bits)) + channel_fields(bits, v).2,
{
    let br = red_bits(bits);
    let bg = green_bits(bits);
    let bb = blue_bits(bits);
    lemma_fields_bounds(bits, v);
    lemma_pow2_pos(bb);
    lemma_pow2_pos(bg);
    lemma_pow2_pos(br);
    lemma_pow2_adds(bg, bb);
    lemma_pow2_adds(br, bg + bb);
    vstd::arithmetic::div_mod::lemma_small_mod(v, pow2(bits));
    let pb = pow2(bb);
    let pg = pow2(bg);
    let pr = pow2(br);
    // v = (v / pb) * pb + v % pb, and v / pb = (v / pb / pg) * pg + (v / pb) % pg.
    vstd::arithmetic::div_mod::lemma_fundamental_div_mod(v as int, pb as int);
    let t = v / pb;
    vstd::arithmetic::div_mod::lemma_fundamental_div_mod(t as int, pg as int);
    lemma_div_denominator(v as int, pb as int, pg as int);
    assert(t / pg == v / (pb * pg));
    assert(pb * pg == pg * pb) by (nonlinear_arith);
    assert(v / (pg * pb) < pr) by (nonlinear_arith)
        requires
            v < pr * (pg * pb),
            pg * pb > 0,
    {
        vstd::arithmetic::div_mod::lemma_div_is_ordered(v as int, (pr * (pg * pb) - 1) as int, (pg * pb) as int);
        vstd::arithmetic::div_mod::lemma_fundamental_div_mod_converse((pr * (pg * pb) - 1) as int, (pg * pb) as int, (pr - 1) as int, (pg * pb - 1) as int);
    }
    vstd::arithmetic::div_mod::lemma_small_mod(v / (pg * pb), pr);
    let a = v / (pg * pb);
    let c = t % pg;
    let e = v % pb;
    assert(v == (a * pg + c) * pb + e) by (nonlinear_arith)
        requires
            v == pb * t + e,
            t == pg * (t / pg) + c,
            t / pg == a,
    ;
    assert(v == a * (pg * pb) + c * pb + e) by (nonlinear_arith)
        requires
            v == (a * pg + c) * pb + e,
    ;
}


/// `pow2(trailing_zeros(n))` divides into `n`: it is at most `n`.
proof fn lemma_tz_pow2_le(n: nat)
    requires
        n > 0,
    ensures
        pow2(trailing_zeros_spec(n)) <= n,
    decreases n,
{
    lemma2_to64();
    if n % 2 == 0 {
        lemma_tz_pow2_le(n / 2);
        vstd::arithmetic::power2::lemma_pow2_unfold(trailing_zeros_spec(n));
    }
}

/// `2^k` has `k` trailing zeros.
proof fn lemma_tz_of_pow2(k: nat)
    ensures
        trailing_zeros_spec(pow2(k)) == k,
    decreases k,
{
    lemma2_to64();
    if k > 0 {
        lemma_tz_of_pow2((k - 1) as nat);
        vstd::arithmetic::power2::lemma_pow2_unfold(k);
        lemma_pow2_pos((k - 1) as nat);
    }
}

/// A least preimage is the one `least_preimage` picks.
proof fn lemma_least_unique(palette: u32, rgb: Seq<u8>, i: u32)
    requires
        is_least_preimage(palette, rgb, i),
    ensures
        has_preimage(palette, rgb),
        least_preimage(palette, rgb) == i,
{
    let c = least_preimage(palette, rgb);
    assert(is_least_preimage(palette, rgb, c));
    if c < i {
        assert(rgb_spec(palette, c) == rgb);
    } else if i < c {
        assert(rgb_spec(palette, i) == rgb);
    }
}

/// Inverting a spread field value gives it back.
proof fn lemma_compress_expand(v: nat, n: nat)
    requires
        n <= 8,
        v < pow2(n),
    ensures
        compress_spec(expand_spec(v, n), n) == Ok::<u32, GlyphixError>(v as u32),
{
    lemma2_to64();
    if n == 0 {
    } else if n >= 8 {
        assert(n == 8);
    } else {
        lemma_pow2_strictly_increases(n, 8);
        let byte = expand_spec(v, n);
        assert(v < pow2(n) && expand_spec(v, n) == byte);
        let c = choose|w: nat| w < pow2(n) && expand_spec(w, n) == byte;
        lemma_expand_injective(c, v, n);
    }
}

/// A number below 8 is its three bits.
proof fn lemma_three_bits(j: u32)
    by (bit_vector)
    requires
        j < 8,
    ensures
        j == 4 * ((j / 4) % 2) + 2 * ((j / 2) % 2) + j % 2,
{
}

/// A number below `2^24` is its three packed bytes.
proof fn lemma_three_bytes(j: u32)
    by (bit_vector)
    requires
        j < 0x0100_0000,
    ensures
        j == ((j / 65536) % 256) * 65536 + ((j / 256) % 256) * 256 + j % 256,
{
}

/// Disjoint shifted fields combine by `|` as by `+`.
proof fn lemma_pack_fields(x: u32, y: u32, z: u32, br: u32, bg: u32, s1: u32, s2: u32)
    by (bit_vector)
    requires
        s1 == bg + s2,
        s1 + br <= 24,
        x < (1u32 << br),
        y < (1u32 << bg),
        z < (1u32 << s2),
    ensures
        (x << s1) | (y << s2) | z == (x << s1) + (y << s2) + z,
{
}

/// A channel that must be fully off (`0`) or fully on (`255`).
fn unit_channel(c: u8, rgb: Rgb, palette_size: u32) -> (res: Result<u32>)
    ensures
        res is Ok <==> c == 0 || c == 255,
        res matches Ok(v) ==> v == if c == 255 { 1u32 } else { 0u32 },
        res matches Err(e) ==> e == (GlyphixError::UnmappedColor { r: rgb@[0], g: rgb@[1], b: rgb@[2], palette_size }),
{
    if c == 0 {
        Ok(0)
    } else if c == 255 {
        Ok(1)
    } else {
        Err(GlyphixError::UnmappedColor { r: rgb[0], g: rgb[1], b: rgb[2], palette_size })
    }
}

/// Invert [`expand_channel`]: the `nbits`-bit field value that spreads to `byte`.
fn compress_channel(byte: u8, nbits: u32) -> (r: Result<u32>)
    requires
        nbits <= 8,
    ensures
        r == compress_spec(byte, nbits as nat),
        r matches Ok(v) ==> v < pow2(nbits as nat) && expand_spec(v as nat, nbits as nat) == byte,
{
    proof {
        lemma2_to64();
    }
    if nbits == 0 {
        return if byte == 0 {
            Ok(0)
        } else {
            Err(GlyphixError::UnmappedColor { r: byte, g: 0, b: 0, palette_size: 0 })
        };
    }
    if nbits >= 8 {
        return Ok(byte as u32);
    }
    proof {
        lemma_shl_one(nbits);
        lemma_pow2_strictly_increases(nbits as nat, 8);
    }
    let max = (1u32 << nbits) - 1;
    let mut v: u32 = 0;
    while v <= max
        invariant
            1 <= nbits < 8,
            max == pow2(nbits as nat) - 1,
            max < 256,
            v <= max + 1,
            forall|w: nat| w < v ==> expand_spec(w, nbits as nat) != byte,
        decreases max + 1 - v,
    {
        if expand_channel(v, nbits) == byte {
            proof {
                lemma_compress_expand(v as nat, nbits as nat);
            }
            return Ok(v);
        }
        v = v + 1;
    }
    proof {
        assert(!(exists|w: nat| w < pow2(nbits as nat) && expand_spec(w, nbits as nat) == byte));
    }
    Err(GlyphixError::UnmappedColor { r: byte, g: 0, b: 0, palette_size: max + 1 })
}

/// Inverse for the two-color palette.
fn binary_index(rgb: Rgb) -> (res: Result<u32>)
    ensures
        result_agrees(res, rgb_index_spec(2, rgb@)),
{
    let r = rgb[0];
    let g = rgb[1];
    let b = rgb[2];
    let ghost c = rgb@;
    if r == 0 && g == 0 && b == 0 {
        proof {
            assert(rgb_spec(2, 0) =~= c);
            lemma_least_unique(2, c, 0);
        }
        Ok(0)
    } else if r == 255 && g == 255 && b == 255 {
        proof {
            assert(rgb_spec(2, 1) =~= c);
            assert(rgb_spec(2, 0)[0] != c[0]);
            lemma_least_unique(2, c, 1);
        }
        Ok(1)
    } else {
        proof {
            assert forall|i: u32| i < 2 implies rgb_spec(2, i) != c by {
                if rgb_spec(2, i) == c {
                    assert(rgb_spec(2, i)[0] == c[0]);
                    assert(rgb_spec(2, i)[1] == c[1]);
                    assert(rgb_spec(2, i)[2] == c[2]);
                }
            }
        }
        Err(GlyphixError::UnmappedColor { r, g, b, palette_size: 2 })
    }
}

/// Inverse for the 3-bit RGB palette.
fn rgb8_index(rgb: Rgb) -> (res: Result<u32>)
    ensures
        result_agrees(res, rgb_index_spec(8, rgb@)),
{
    let r = rgb[0];
    let g = rgb[1];
    let b = rgb[2];
    let ghost c = rgb@;
    proof {
        assert forall|i: u32| i < 8 && !((r == 0 || r == 255) && (g == 0 || g == 255) && (b == 0 || b == 255))
            implies rgb_spec(8, i) != c by {
            if rgb_spec(8, i) == c {
                assert(rgb_spec(8, i)[0] == c[0]);
                assert(rgb_spec(8, i)[1] == c[1]);
                assert(rgb_spec(8, i)[2] == c[2]);
            }
        }
    }
    let rb = unit_channel(r, rgb, 8)?;
    let gb = unit_channel(g, rgb, 8)?;
    let bb = unit_channel(b, rgb, 8)?;
    let i = (rb << 2) | (gb << 1) | bb;
    proof {
        assert(i == 4 * rb + 2 * gb + bb) by (bit_vector)
            requires
                rb <= 1,
                gb <= 1,
                bb <= 1,
                i == (rb << 2) | (gb << 1) | bb,
        ;
        assert(rgb_spec(8, i) =~= c);
        assert forall|j: u32| j < i implies rgb_spec(8, j) != c by {
            if rgb_spec(8, j) == c {
                assert(rgb_spec(8, j)[0] == c[0]);
                assert(rgb_spec(8, j)[1] == c[1]);
                assert(rgb_spec(8, j)[2] == c[2]);
                lemma_three_bits(j);
            }
        }
        lemma_least_unique(8, c, i);
    }
    Ok(i)
}

/// Inverse for the grayscale palette.
fn gray_index(rgb: Rgb) -> (res: Result<u32>)
    ensures
        result_agrees(res, rgb_index_spec(256, rgb@)),
{
    let r = rgb[0];
    let g = rgb[1];
    let b = rgb[2];
    let ghost c = rgb@;
    if r == g && g == b {
        proof {
            assert(rgb_spec(256, r as u32) =~= c);
            assert forall|j: u32| j < r as u32 implies rgb_spec(256, j) != c by {
                if rgb_spec(256, j) == c {
                    assert(rgb_spec(256, j)[0] == c[0]);
                }
            }
            lemma_least_unique(256, c, r as u32);
        }
        Ok(r as u32)
    } else {
        proof {
            assert forall|i: u32| i < 256 implies rgb_spec(256, i) != c by {
                if rgb_spec(256, i) == c {
                    assert(rgb_spec(256, i)[0] == c[0]);
                    assert(rgb_spec(256, i)[1] == c[1]);
                    assert(rgb_spec(256, i)[2] == c[2]);
                }
            }
        }
        Err(GlyphixError::UnmappedColor { r, g, b, palette_size: 256 })
    }
}

/// Inverse for the packed 24-bit palette.
#[verifier::spinoff_prover]
#[verifier::rlimit(40)]
fn packed_index(rgb: Rgb) -> (res: Result<u32>)
    ensures
        result_agrees(res, rgb_index_spec(0x0100_0000, rgb@)),
{
    let r = rgb[0];
    let g = rgb[1];
    let b = rgb[2];
    let ghost c = rgb@;
    let i = ((r as u32) << 16) | ((g as u32) << 8) | (b as u32);
    proof {
        let (rr, gg, bv) = (r as u32, g as u32, b as u32);
        assert(i == rr * 65536 + gg * 256 + bv) by (bit_vector)
            requires
                rr < 256,
                gg < 256,
                bv < 256,
                i == (rr << 16) | (gg << 8) | bv,
        ;
        assert(rgb_spec(0x0100_0000, i) =~= c);
        assert forall|j: u32| j < i implies rgb_spec(0x0100_0000, j) != c by {
            if rgb_spec(0x0100_0000, j) == c {
                assert(rgb_spec(0x0100_0000, j)[0] == c[0]);
                assert(rgb_spec(0x0100_0000, j)[1] == c[1]);
                assert(rgb_spec(0x0100_0000, j)[2] == c[2]);
                lemma_three_bytes(j);
            }
        }
        lemma_least_unique(0x0100_0000, c, i);
    }
    Ok(i)
}

/// Inverse for a small generic palette: try every index in order.
fn search_index(palette_size: u32, rgb: Rgb) -> (res: Result<u32>)
    requires
        !is_named_palette(palette_size),
        trailing_zeros_spec(palette_size as nat) <= 24,
        palette_size <= 4096,
    ensures
        result_agrees(res, rgb_index_spec(palette_size, rgb@)),
{
    let r = rgb[0];
    let g = rgb[1];
    let b = rgb[2];
    let ghost c = rgb@;
    let mut i: u32 = 0;
    while i < palette_size
        invariant
            !is_named_palette(palette_size),
            trailing_zeros_spec(palette_size as nat) <= 24,
            c == rgb@,
            r == c[0],
            g == c[1],
            b == c[2],
            c.len() == 3,
            i <= palette_size,
            forall|j: u32| j < i ==> rgb_spec(palette_size, j) != c,
        decreases palette_size - i,
    {
        let col = index_to_rgb(palette_size, i)?;
        if col[0] == r && col[1] == g && col[2] == b {
            proof {
                assert(col@ =~= c);
                lemma_least_unique(palette_size, c, i);
            }
            return Ok(i);
        }
        proof {
            if rgb_spec(palette_size, i) == c {
                assert(col@[0] == c[0]);
                assert(col@[1] == c[1]);
                assert(col@[2] == c[2]);
            }
        }
        i = i + 1;
    }
    Err(GlyphixError::UnmappedColor { r, g, b, palette_size })
}

/// A color with a preimage inverts channel by channel.
proof fn lemma_preimage_compresses(palette: u32, c: Seq<u8>, j: u32)
    requires
        !is_named_palette(palette),
        trailing_zeros_spec(palette as nat) <= 24,
        j < palette,
        rgb_spec(palette, j) == c,
    ensures
        compress_spec(c[0], red_bits(trailing_zeros_spec(palette as nat))) is Ok,
        compress_spec(c[1], green_bits(trailing_zeros_spec(palette as nat))) is Ok,
        compress_spec(c[2], blue_bits(trailing_zeros_spec(palette as nat))) is Ok,
{
    let nb = trailing_zeros_spec(palette as nat);
    let f = channel_fields(nb, j as nat);
    lemma_fields_bounds(nb, j as nat);
    assert(rgb_spec(palette, j)[0] == c[0]);
    assert(rgb_spec(palette, j)[1] == c[1]);
    assert(rgb_spec(palette, j)[2] == c[2]);
    lemma_compress_expand(f.0, red_bits(nb));
    lemma_compress_expand(f.1, green_bits(nb));
    lemma_compress_expand(f.2, blue_bits(nb));
}

/// Two indices of a generic palette with the same color agree modulo `2^bits`.
proof fn lemma_same_color_same_low_bits(bits: nat, i: nat, j: nat)
    requires
        bits <= 24,
        generic_rgb(bits, i) == generic_rgb(bits, j),
    ensures
        i % pow2(bits) == j % pow2(bits),
{
    let f = channel_fields(bits, i);
    let h = channel_fields(bits, j);
    lemma_fields_bounds(bits, i);
    lemma_fields_bounds(bits, j);
    assert(generic_rgb(bits, i)[0] == generic_rgb(bits, j)[0]);
    assert(generic_rgb(bits, i)[1] == generic_rgb(bits, j)[1]);
    assert(generic_rgb(bits, i)[2] == generic_rgb(bits, j)[2]);
    lemma_expand_injective(f.0, h.0, red_bits(bits));
    lemma_expand_injective(f.1, h.1, green_bits(bits));
    lemma_expand_injective(f.2, h.2, blue_bits(bits));
    lemma_pow2_pos(bits);
    let wi = i % pow2(bits);
    let wj = j % pow2(bits);
    vstd::arithmetic::div_mod::lemma_mod_bound(i as int, pow2(bits) as int);
    vstd::arithmetic::div_mod::lemma_mod_bound(j as int, pow2(bits) as int);
    vstd::arithmetic::div_mod::lemma_small_mod(wi, pow2(bits));
    vstd::arithmetic::div_mod::lemma_small_mod(wj, pow2(bits));
    assert(channel_fields(bits, wi) == f);
    assert(channel_fields(bits, wj) == h);
    lemma_fields_decompose(bits, wi);
    lemma_fields_decompose(bits, wj);
}

/// Inverse for a large generic palette: invert each channel and put the fields together.
fn fields_index(palette_size: u32, bits: u32, rgb: Rgb) -> (res: Result<u32>)
    requires
        !is_named_palette(palette_size),
        bits == trailing_zeros_spec(palette_size as nat),
        bits <= 24,
        palette_size > 4096,
    ensures
        result_agrees(res, rgb_index_spec(palette_size, rgb@)),
{
    let r = rgb[0];
    let g = rgb[1];
    let b = rgb[2];
    let ghost c = rgb@;
    let br = bits / 3 + if bits % 3 > 0 { 1 } else { 0 };
    let bg = bits / 3 + if bits % 3 > 1 { 1 } else { 0 };
    let bb = bits / 3;
    let ghost nb = bits as nat;
    proof {
        assert(br == red_bits(nb));
        assert(bg == green_bits(nb));
        assert(bb == blue_bits(nb));
        lemma_fields_bounds(nb, 0);
        if has_preimage(palette_size, c) {
            let j = choose|j: u32| j < palette_size && rgb_spec(palette_size, j) == c;
            lemma_preimage_compresses(palette_size, c, j);
        }
    }
    let r_bits = compress_channel(r, br)?;
    let g_bits = compress_channel(g, bg)?;
    let b_bits = compress_channel(b, bb)?;
    proof {
        lemma_shl_one(br);
        lemma_shl_one((bg + bb) as u32);
        lemma_shl_one(bb);
        lemma_shl_one(bg);
        lemma_pack_fields(r_bits, g_bits, b_bits, br, bg, (bg + bb) as u32, bb);
        lemma_fields_compose(nb, r_bits as nat, g_bits as nat, b_bits as nat);
        lemma_pow2_pos(bb as nat);
        lemma_pow2_pos(bg as nat);
        lemma_pow2_strictly_increases(nb, 32);
        lemma2_to64();
        assert(r_bits * pow2((bg + bb) as nat) < pow2(nb)) by (nonlinear_arith)
            requires
                r_bits * pow2((bg + bb) as nat) + g_bits * pow2(bb as nat) + b_bits < pow2(nb),
                g_bits * pow2(bb as nat) >= 0,
        ;
        assert(g_bits * pow2(bb as nat) < pow2(nb)) by (nonlinear_arith)
            requires
                r_bits * pow2((bg + bb) as nat) + g_bits * pow2(bb as nat) + b_bits < pow2(nb),
                r_bits * pow2((bg + bb) as nat) >= 0,
        ;
        lemma_u32_shl_is_mul(r_bits, (bg + bb) as u32);
        lemma_u32_shl_is_mul(g_bits, bb);
    }
    let index = (r_bits << (bg + bb)) | (g_bits << bb) | b_bits;
    let ghost v = r_bits * pow2((bg + bb) as nat) + g_bits * pow2(bb as nat) + b_bits;
    proof {
        assert(index == v);
        lemma_tz_pow2_le(palette_size as nat);
        assert(index < palette_size);
        vstd::arithmetic::div_mod::lemma_small_mod(v as nat, pow2(nb));
        assert(rgb_spec(palette_size, index) =~= c);
    }
    let col = index_to_rgb(palette_size, index)?;
    if col[0] != r || col[1] != g || col[2] != b {
        return Err(GlyphixError::UnmappedColor { r, g, b, palette_size });
    }
    if index >= palette_size {
        return Err(GlyphixError::ColorOutOfRange { index, palette_size });
    }
    proof {
        assert forall|j: u32| j < index implies rgb_spec(palette_size, j) != c by {
            if rgb_spec(palette_size, j) == c {
                lemma_same_color_same_low_bits(nb, j as nat, index as nat);
                vstd::arithmetic::div_mod::lemma_mod_decreases(j as nat, pow2(nb));
            }
        }
        lemma_least_unique(palette_size, c, index);
    }
    Ok(index)
}

/// Inverse of [`index_to_rgb`]: the least index whose color is `rgb`.
pub fn rgb_to_index(palette_size: u32, rgb: Rgb) -> (res: Result<u32>)
    ensures
        result_agrees(res, rgb_index_spec(palette_size, rgb@)),
{
    if palette_size == 2 {
        binary_index(rgb)
    } else if palette_size == 8 {
        rgb8_index(rgb)
    } else if palette_size == 256 {
        gray_index(rgb)
    } else if palette_size == 0x0100_0000 {
        packed_index(rgb)
    } else {
        let bits = trailing_zeros(palette_size);
        if bits > 24 {
            return Err(GlyphixError::InvalidProfile(
                "cannot invert color map for palette with >24 bits/cell from RGB alone".to_string(),
            ));
        }
        if palette_size <= 4096 {
            search_index(palette_size, rgb)
        } else {
            fields_index(palette_size, bits, rgb)
        }
    }
}

/// [`index_to_rgb`] with a profile's palette.
pub fn profile_index_to_rgb(profile: &GlyphProfile, index: u32) -> (r: Result<Rgb>)
    ensures
        r is Ok <==> index < profile.palette_size,
        r matches Ok(c) ==> c@ == rgb_spec(profile.palette_size, index),
        r matches Err(e) ==> e == (GlyphixError::ColorOutOfRange { index, palette_size: profile.palette_size }),
{
    index_to_rgb(profile.palette_size, index)
}

/// [`rgb_to_index`] with a profile's palette.
pub fn profile_rgb_to_index(profile: &GlyphProfile, rgb: Rgb) -> (r: Result<u32>)
    ensures
        result_agrees(r, rgb_index_spec(profile.palette_size, rgb@)),
{
    rgb_to_index(profile.palette_size, rgb)
}

/// For a power-of-two palette of at most `2^24` colors, reading a color back
/// gives the index it was drawn from.
pub proof fn lemma_color_roundtrip(palette: u32, index: u32)
    requires
        is_pow2_nat(palette as nat),
        palette <= 0x0100_0000,
        index < palette,
    ensures
        rgb_index_spec(palette, rgb_spec(palette, index)) == Ok::<u32, GlyphixError>(index),
{
    let c = rgb_spec(palette, index);
    let k = log2_nat(palette as nat);
    lemma_pow2_log2(palette as nat);
    lemma_tz_of_pow2(k);
    lemma2_to64();
    if k > 24 {
        lemma_pow2_strictly_increases(24, k);
    }
    assert forall|j: u32| j < index implies rgb_spec(palette, j) != c by {
        if rgb_spec(palette, j) == c {
            assert(rgb_spec(palette, j)[0] == c[0]);
            assert(rgb_spec(palette, j)[1] == c[1]);
            assert(rgb_spec(palette, j)[2] == c[2]);
            if palette == 2 {
            } else if palette == 8 {
                lemma_three_bits(j);
                lemma_three_bits(index);
            } else if palette == 256 {
            } else if palette == 0x0100_0000 {
                lemma_three_bytes(j);
                lemma_three_bytes(index);
            } else {
                lemma_same_color_same_low_bits(k, j as nat, index as nat);
                vstd::arithmetic::div_mod::lemma_small_mod(j as nat, pow2(k));
                vstd::arithmetic::div_mod::lemma_small_mod(index as nat, pow2(k));
            }
        }
    }
    lemma_least_unique(palette, c, index);
}

/// The eight-colour palette writes its index as three bits `0bRGB`: every channel
/// is off (0) or on (255), and the index is four for red, plus two for green,
/// plus one for blue. So index 1 is pure blue and index 4 pure red.
pub proof fn lemma_eight_color_bits(index: u32)
    requires
        index < 8,
    ensures
        rgb_spec(8, index).len() == 3,
        forall|j: int| 0 <= j < 3 ==> #[trigger] rgb_spec(8, index)[j] == 0 || rgb_spec(8, index)[j] == 255,
        index == 4 * (rgb_spec(8, index)[0] / 255) + 2 * (rgb_spec(8, index)[1] / 255) + rgb_spec(8, index)[2] / 255,
{
    let c = rgb_spec(8, index);
    assert(c[0] == full((index / 4) % 2 == 1));
    assert(c[1] == full((index / 2) % 2 == 1));
    assert(c[2] == full(index % 2 == 1));
    assert(index == 0 || index == 1 || index == 2 || index == 3 || index == 4 || index == 5 || index == 6 || index == 7);
}

} // verus!
