//! Bits ↔ grid cells using base-\(C\) place values.
//!
//! # Stream convention
//!
//! - Bytes expand to bits **MSB-first** within each byte.
//! - For each glyph, **low places fill first**: the first `bits_per_cell` bits
//!   form the digit at place 0 (bottom-right).
//! - Within a multi-bit digit, bits are **MSB-first**.

use vstd::prelude::*;
use vstd::arithmetic::power2::{pow2, lemma2_to64, lemma_pow2_pos, lemma_pow2_strictly_increases, lemma_pow2_adds};
use vstd::arithmetic::div_mod::{lemma_fundamental_div_mod, lemma_fundamental_div_mod_converse, lemma_div_denominator};
use crate::digits::{bits_msb, bits_value, bytes_to_bits_spec, bits_to_bytes_spec, chunk_byte, ceil8, lemma_bits_msb_len, lemma_bits_msb_index, lemma_bits_msb_of_value, lemma_value_of_bits_msb, lemma_bits_value_bound, lemma_bits_value_push, lemma_bits_value_concat, lemma_div_mod8};
use crate::error::{message, GlyphixError, Result};
use crate::grid::{Grid, GridView, profile_check, palette_check, lemma_palette_check_ok, views, glyphs_agree};
use crate::strings::{char_debug, char_debug_text, trim, trim_spec};
use crate::text::decimal;
use crate::profile::GlyphProfile;

verus! {

broadcast use crate::error::lemma_message;

/// The glyph painted from one glyph's worth of stream bits: the digit of place
/// `p` is read MSB-first from bits `p*k .. p*k + k`.
pub open spec fn glyph_from_stream(p: GlyphProfile, chunk: Seq<bool>) -> GridView {
    let n = p.cells();
    let k = p.bpc();
    GridView {
        width: p.width,
        height: p.height,
        cells: Seq::new(n, |i: int| bits_value(chunk.subrange((n - 1 - i) * k, (n - 1 - i) * k + k)) as u32),
    }
}

/// The stream bits of one glyph: low places first, each digit MSB-first.
pub open spec fn stream_of_glyph(p: GlyphProfile, g: GridView) -> Seq<bool> {
    let k = p.bpc();
    Seq::new(p.bpg(), |j: int| bits_msb(g.place(j / k as int) as nat, k)[j % k as int])
}

/// Glyphs cut from consecutive windows of a bit stream.
pub open spec fn glyphs_from_bits(p: GlyphProfile, bits: Seq<bool>, count: nat) -> Seq<GridView> {
    Seq::new(count, |i: int| glyph_from_stream(p, bits.subrange(i * p.bpg(), i * p.bpg() + p.bpg())))
}

/// Concatenated stream bits of a glyph sequence.
pub open spec fn stream_of_glyphs(p: GlyphProfile, gs: Seq<GridView>) -> Seq<bool>
    decreases gs.len(),
{
    if gs.len() == 0 {
        Seq::empty()
    } else {
        stream_of_glyphs(p, gs.drop_last()) + stream_of_glyph(p, gs.last())
    }
}

pub proof fn lemma_stream_of_glyphs_len(p: GlyphProfile, gs: Seq<GridView>)
    ensures
        stream_of_glyphs(p, gs).len() == gs.len() * p.bpg(),
    decreases gs.len(),
{
    if gs.len() > 0 {
        lemma_stream_of_glyphs_len(p, gs.drop_last());
        assert((gs.len() - 1) * p.bpg() + p.bpg() == gs.len() * p.bpg()) by (nonlinear_arith);
    }
}

pub proof fn lemma_stream_of_glyphs_push(p: GlyphProfile, gs: Seq<GridView>, g: GridView)
    ensures
        stream_of_glyphs(p, gs.push(g)) == stream_of_glyphs(p, gs) + stream_of_glyph(p, g),
{
    assert(gs.push(g).drop_last() =~= gs);
}

/// Position facts for digit windows.
pub proof fn lemma_digit_window(n: int, k: int, place: int)
    requires
        0 <= place < n,
        k >= 1,
    ensures
        0 <= place * k,
        place * k + k <= n * k,
{
    assert(place * k + k <= n * k) by (nonlinear_arith)
        requires
            0 <= place < n,
            k >= 1,
    ;
    assert(0 <= place * k) by (nonlinear_arith)
        requires
            0 <= place,
            k >= 1,
    ;
}

/// Reading a glyph painted from a stream window returns the window.
pub proof fn lemma_stream_roundtrip(p: GlyphProfile, chunk: Seq<bool>)
    requires
        p.wf(),
        chunk.len() == p.bpg(),
    ensures
        stream_of_glyph(p, glyph_from_stream(p, chunk)) == chunk,
{
    p.lemma_wf();
    let n = p.cells() as int;
    let k = p.bpc() as int;
    let g = glyph_from_stream(p, chunk);
    let s = stream_of_glyph(p, g);
    assert forall|j: int| 0 <= j < chunk.len() implies s[j] == chunk[j] by {
        lemma_fundamental_div_mod(j, k);
        let q = j / k;
        let r = j % k;
        assert(0 <= q < n) by (nonlinear_arith)
            requires
                j == k * q + r,
                0 <= r < k,
                0 <= j < n * k,
                k >= 1,
        ;
        lemma_digit_window(n, k, q);
        let w = chunk.subrange(q * k, q * k + k);
        assert(g.place(q) == bits_value(w) as u32);
        lemma_bits_value_bound(w);
        vstd::bits::lemma_u32_pow2_no_overflow(k as nat);
        lemma_bits_msb_of_value(w);
        assert(w[r] == chunk[j]);
    }
    assert(s =~= chunk);
}

/// Painting a glyph from its own stream returns the glyph.
pub proof fn lemma_glyph_roundtrip(p: GlyphProfile, g: GridView)
    requires
        p.wf(),
        g.wf(),
        g.width == p.width,
        g.height == p.height,
        g.colors_below(p.palette_size),
    ensures
        glyph_from_stream(p, stream_of_glyph(p, g)) == g,
{
    p.lemma_wf();
    let n = p.cells() as int;
    let k = p.bpc() as int;
    let s = stream_of_glyph(p, g);
    let h = glyph_from_stream(p, s);
    assert forall|i: int| 0 <= i < n implies h.cells[i] == g.cells[i] by {
        let pl = n - 1 - i;
        lemma_digit_window(n, k, pl);
        let w = s.subrange(pl * k, pl * k + k);
        lemma_bits_msb_len(g.place(pl) as nat, k as nat);
        assert forall|r: int| 0 <= r < k implies w[r] == bits_msb(g.place(pl) as nat, k as nat)[r] by {
            lemma_fundamental_div_mod_converse(pl * k + r, k, pl, r);
            assert(pl * k + r == k * pl + r) by (nonlinear_arith);
        }
        assert(w =~= bits_msb(g.place(pl) as nat, k as nat));
        lemma_value_of_bits_msb(g.place(pl) as nat, k as nat);
        assert(g.cells[i] < p.palette_size);
        assert(g.place(pl) == g.cells[i]);
        vstd::arithmetic::div_mod::lemma_small_mod(g.cells[i] as nat, pow2(k as nat));
    }
    assert(h.cells =~= g.cells);
}

/// Concatenating the streams of glyphs cut from a bit stream gives the stream back.
pub proof fn lemma_glyphs_stream_roundtrip(p: GlyphProfile, bits: Seq<bool>, count: nat)
    requires
        p.wf(),
        bits.len() == count * p.bpg(),
    ensures
        stream_of_glyphs(p, glyphs_from_bits(p, bits, count)) == bits,
    decreases count,
{
    p.lemma_wf();
    let b = p.bpg() as int;
    if count == 0 {
        assert(glyphs_from_bits(p, bits, count) =~= Seq::<GridView>::empty());
        assert(bits.len() == 0) by (nonlinear_arith)
            requires
                bits.len() == count * b,
                count == 0,
        ;
        assert(bits =~= Seq::<bool>::empty());
    } else {
        let c1 = (count - 1) as nat;
        assert(c1 * b + b == count * b) by (nonlinear_arith)
            requires
                c1 == count - 1,
        ;
        let front = bits.subrange(0, c1 * b);
        let back = bits.subrange(c1 * b, c1 * b + b);
        lemma_glyphs_stream_roundtrip(p, front, c1);
        let gs = glyphs_from_bits(p, bits, count);
        assert(gs.drop_last() =~= glyphs_from_bits(p, front, c1)) by {
            assert forall|i: int| 0 <= i < c1 implies gs.drop_last()[i] == glyphs_from_bits(p, front, c1)[i] by {
                assert(i * b + b <= c1 * b) by (nonlinear_arith)
                    requires
                        i < c1,
                        b >= 1,
                ;
                assert(0 <= i * b) by (nonlinear_arith)
                    requires
                        i >= 0,
                        b >= 1,
                ;
                assert(bits.subrange(i * b, i * b + b) =~= front.subrange(i * b, i * b + b));
            }
        }
        lemma_stream_roundtrip(p, back);
        assert(bits =~= front + back);
    }
}

/// Glyphs cut from the stream of glyphs are those glyphs.
pub proof fn lemma_glyphs_of_stream(p: GlyphProfile, gs: Seq<GridView>)
    requires
        p.wf(),
        forall|i: int| 0 <= i < gs.len() ==> {
            &&& (#[trigger] gs[i]).wf()
            &&& gs[i].width == p.width
            &&& gs[i].height == p.height
            &&& gs[i].colors_below(p.palette_size)
        },
    ensures
        glyphs_from_bits(p, stream_of_glyphs(p, gs), gs.len()) == gs,
    decreases gs.len(),
{
    p.lemma_wf();
    let b = p.bpg() as int;
    if gs.len() > 0 {
        let front = gs.drop_last();
        lemma_glyphs_of_stream(p, front);
        let s = stream_of_glyphs(p, gs);
        let sf = stream_of_glyphs(p, front);
        lemma_stream_of_glyphs_len(p, front);
        let c1 = front.len() as int;
        assert(c1 * b + b == gs.len() * b) by (nonlinear_arith)
            requires
                c1 == gs.len() - 1,
        ;
        let out = glyphs_from_bits(p, s, gs.len());
        assert forall|i: int| 0 <= i < gs.len() implies out[i] == gs[i] by {
            if i < c1 {
                assert(i * b + b <= c1 * b) by (nonlinear_arith)
                    requires
                        i < c1,
                        b >= 1,
                ;
                assert(0 <= i * b) by (nonlinear_arith)
                    requires
                        i >= 0,
                        b >= 1,
                ;
                assert(s.subrange(i * b, i * b + b) =~= sf.subrange(i * b, i * b + b));
                assert(glyphs_from_bits(p, sf, front.len())[i] == front[i]);
            } else {
                assert(s.subrange(i * b, i * b + b) =~= stream_of_glyph(p, gs.last()));
                lemma_glyph_roundtrip(p, gs.last());
            }
        }
        assert(out =~= gs);
    }
}

/// Expand bytes to a bit vector (MSB-first per byte).
pub fn bytes_to_bits(bytes: &[u8]) -> (bits: Vec<bool>)
    requires
        bytes@.len() * 8 <= usize::MAX,
    ensures
        bits@ == bytes_to_bits_spec(bytes@),
{
    let mut bits: Vec<bool> = Vec::with_capacity(bytes.len() * 8);
    let mut t: usize = 0;
    while t < bytes.len()
        invariant
            t <= bytes@.len(),
            bytes@.len() * 8 <= usize::MAX,
            bits@ == bytes_to_bits_spec(bytes@.take(t as int)),
        decreases bytes@.len() - t,
    {
        let b = bytes[t];
        let mut i: u8 = 0;
        while i < 8
            invariant
                i <= 8,
                t < bytes@.len(),
                b == bytes@[t as int],
                bits@ == bytes_to_bits_spec(bytes@.take(t as int)) + bits_msb(b as nat, 8).take(i as int),
            decreases 8 - i,
        {
            let shift: u8 = 7 - i;
            let bit = (b >> shift) & 1 == 1;
            proof {
                vstd::bits::lemma_u8_shr_is_div(b, shift);
                let v = b >> shift;
                assert(v & 1 == v % 2) by (bit_vector);
                lemma_bits_msb_len(b as nat, 8);
                lemma_bits_msb_index(b as nat, 8, i as int);
            }
            bits.push(bit);
            proof {
                assert(bits_msb(b as nat, 8).take(i + 1) =~= bits_msb(b as nat, 8).take(i as int).push(bit));
            }
            i = i + 1;
        }
        proof {
            lemma_bits_msb_len(b as nat, 8);
            let pre = bytes@.take(t as int);
            let nxt = bytes@.take(t + 1);
            assert(bits_msb(b as nat, 8).take(8) =~= bits_msb(b as nat, 8));
            assert forall|j: int| 0 <= j < 8 * nxt.len() implies bits@[j] == bytes_to_bits_spec(nxt)[j] by {
                lemma_fundamental_div_mod(j, 8);
                if j < 8 * pre.len() {
                    assert(nxt[j / 8] == pre[j / 8]);
                } else {
                    lemma_div_mod8(t as int, j - 8 * t);
                }
            }
            assert(bits@ =~= bytes_to_bits_spec(nxt));
        }
        t = t + 1;
    }
    assert(bytes@.take(bytes@.len() as int) =~= bytes@);
    bits
}

/// Pack bits into bytes (MSB-first per byte). The last partial byte is padded with
/// zero bits on its low side.
pub fn bits_to_bytes(bits: &[bool]) -> (out: Vec<u8>)
    ensures
        out@ == bits_to_bytes_spec(bits@),
{
    let mut out: Vec<u8> = Vec::new();
    let mut acc: u8 = 0;
    let mut n: u8 = 0;
    let mut i: usize = 0;
    proof {
        lemma2_to64();
    }
    while i < bits.len()
        invariant
            i <= bits@.len(),
            n < 8,
            n <= i,
            (i - n) % 8 == 0,
            out@.len() == (i - n) / 8,
            forall|t: int| 0 <= t < out@.len() ==> out@[t] == chunk_byte(bits@, t),
            acc == bits_value(bits@.subrange(i - n, i as int)),
            pow2(8) == 256,
        decreases bits@.len() - i,
    {
        let bit = bits[i];
        let ghost old_chunk = bits@.subrange(i - n, i as int);
        proof {
            lemma_bits_value_bound(old_chunk);
            if n < 7 {
                vstd::arithmetic::power2::lemma_pow2_strictly_increases(n as nat, 7);
            }
            lemma2_to64();
            assert(acc < 128);
            assert(bits@.subrange(i - n, i + 1) =~= old_chunk.push(bit));
            lemma_bits_value_push(old_chunk, bit);
        }
        acc = acc * 2 + if bit { 1 } else { 0 };
        n = n + 1;
        i = i + 1;
        assert(acc == bits_value(bits@.subrange(i - n, i as int)));
        if n == 8 {
            proof {
                let t = out@.len() as int;
                assert(8 * t == i - 8);
                assert(chunk_byte(bits@, t) == acc) by {
                    assert(8 * t + 8 <= bits@.len());
                    assert(bits@.subrange(8 * t, 8 * t + 8) =~= bits@.subrange(i - n, i as int));
                    lemma2_to64();
                    let c = bits@.subrange(8 * t, 8 * t + 8);
                    assert(c.len() == 8);
                    assert(pow2((8 - c.len()) as nat) == 1);
                    assert(bits_value(c) == acc);
                    assert(bits_value(c) * pow2((8 - c.len()) as nat) == acc as nat);
                    assert(chunk_byte(bits@, t) == (bits_value(c) * pow2((8 - c.len()) as nat)) as u8);
                }
            }
            out.push(acc);
            acc = 0;
            n = 0;
        }
    }
    if n > 0 {
        let chunk_len = n;
        proof {
            let t = out@.len() as int;
            let c = bits@.subrange(i - n, i as int);
            lemma_bits_value_bound(c);
            vstd::bits::lemma_u8_pow2_no_overflow((8 - n) as nat);
            vstd::arithmetic::power2::lemma_pow2_adds(n as nat, (8 - n) as nat);
            assert(acc * pow2((8 - n) as nat) < 256) by (nonlinear_arith)
                requires
                    acc < pow2(n as nat),
                    pow2(n as nat) * pow2((8 - n) as nat) == 256,
                    pow2((8 - n) as nat) > 0,
            ;
            vstd::bits::lemma_u8_shl_is_mul(acc, (8 - n) as u8);
        }
        acc = acc << (8 - n);
        proof {
            let t = out@.len() as int;
            assert(8 * t == i - chunk_len);
            assert(!(8 * t + 8 <= bits@.len()));
            assert(bits@.subrange(8 * t, bits@.len() as int) =~= bits@.subrange(i - chunk_len, i as int));
        }
        out.push(acc);
    }
    proof {
        assert(out@.len() == ceil8(bits@.len())) by {
            if n > 0 {
                lemma_fundamental_div_mod_converse(i + 7, 8, ((i - n) / 8 + 1) as int, (n - 1) as int);
            } else {
                lemma_fundamental_div_mod_converse(i + 7, 8, ((i - n) / 8) as int, 7);
            }
        }
        assert(out@ =~= bits_to_bytes_spec(bits@));
    }
    out
}


/// Paint one glyph from `bits[offset .. offset + bits_per_glyph]`, low places first.
pub fn pack_glyph(profile: &GlyphProfile, bits: &[bool], offset: usize) -> (r: Result<Grid>)
    requires
        profile.wf(),
    ensures
        r is Ok <==> offset + profile.bpg() <= bits@.len(),
        r matches Ok(g) ==> g@ == glyph_from_stream(*profile, bits@.subrange(offset as int, offset + profile.bpg()))
            && g@.wf(),
        r matches Err(e) ==> e == (GlyphixError::TruncatedStream {
            needed: profile.bpg() as usize,
            available: if bits@.len() > offset { (bits@.len() - offset) as usize } else { 0 },
        }),
{
    proof {
        profile.lemma_wf();
    }
    let need = profile.bits_per_glyph();
    let available = if bits.len() > offset { bits.len() - offset } else { 0 };
    if available < need {
        return Err(GlyphixError::TruncatedStream { needed: need, available });
    }
    let bpc = profile.bits_per_cell() as usize;
    let n = profile.cell_count();
    let mut grid = Grid::from_profile(profile);
    let ghost chunk = bits@.subrange(offset as int, offset + need);
    let ghost target = glyph_from_stream(*profile, chunk);
    let mut pos = offset;
    let mut place: usize = 0;
    while place < n
        invariant
            profile.wf(),
            n == profile.cells(),
            bpc == profile.bpc(),
            need == profile.bpg(),
            1 <= bpc <= 31,
            offset + need <= bits@.len(),
            chunk == bits@.subrange(offset as int, offset + need),
            target == glyph_from_stream(*profile, chunk),
            place <= n,
            pos == offset + place * bpc,
            grid@.wf(),
            grid@.width == profile.width,
            grid@.height == profile.height,
            forall|i: int| 0 <= i < n ==> grid@.cells[i] == if n - 1 - i < place { target.cells[i] } else { 0u32 },
        decreases n - place,
    {
        proof {
            lemma_digit_window(n as int, bpc as int, place as int);
            assert(need == n * bpc);
        }
        let ghost start = pos as int;
        let mut digit: u32 = 0;
        let mut j: usize = 0;
        while j < bpc
            invariant
                1 <= bpc <= 31,
                j <= bpc,
                0 <= start,
                start + bpc <= bits@.len(),
                pos == start + j,
                digit == bits_value(bits@.subrange(start, pos as int)),
            decreases bpc - j,
        {
            let bit = bits[pos];
            proof {
                let w = bits@.subrange(start, pos as int);
                lemma_bits_value_bound(w);
                lemma_pow2_strictly_increases(j as nat, 31);
                lemma2_to64();
                assert(bits@.subrange(start, pos + 1) =~= w.push(bit));
                lemma_bits_value_push(w, bit);
            }
            digit = digit * 2 + if bit { 1 } else { 0 };
            pos = pos + 1;
            j = j + 1;
        }
        proof {
            let w = bits@.subrange(start, pos as int);
            lemma_bits_value_bound(w);
            profile.lemma_wf();
            assert(w =~= chunk.subrange(place * bpc, place * bpc + bpc));
            assert(target.cells[n - 1 - place] == digit) by {
                assert(n - 1 - (n - 1 - place) == place);
            }
        }
        if digit >= profile.palette_size {
            return Err(GlyphixError::ColorOutOfRange { index: digit, palette_size: profile.palette_size });
        }
        grid.set_place(place, digit)?;
        proof {
            assert(offset + (place + 1) * bpc == offset + place * bpc + bpc) by (nonlinear_arith);
        }
        place = place + 1;
    }
    proof {
        assert(grid@.cells =~= target.cells);
    }
    Ok(grid)
}

/// Read the bits of a glyph (low places first) and append them to `out`.
pub fn unpack_glyph(profile: &GlyphProfile, grid: &Grid, out: &mut Vec<bool>) -> (r: Result<()>)
    requires
        profile.wf(),
        grid@.wf(),
    ensures
        r == profile_check(grid@, *profile),
        r is Ok ==> final(out)@ == old(out)@ + stream_of_glyph(*profile, grid@),
        r is Err ==> final(out)@ == old(out)@,
{
    grid.validate_profile(profile)?;
    proof {
        profile.lemma_wf();
        lemma_palette_check_ok(grid@.cells, profile.palette_size);
    }
    let bpc = profile.bits_per_cell() as usize;
    let n = profile.cell_count();
    let ghost s = stream_of_glyph(*profile, grid@);
    let mut place: usize = 0;
    while place < n
        invariant
            profile.wf(),
            grid@.wf(),
            grid@.width == profile.width,
            grid@.height == profile.height,
            grid@.colors_below(profile.palette_size),
            n == profile.cells(),
            bpc == profile.bpc(),
            1 <= bpc <= 31,
            s == stream_of_glyph(*profile, grid@),
            place <= n,
            out@ == old(out)@ + s.take(place * bpc),
        decreases n - place,
    {
        proof {
            lemma_digit_window(n as int, bpc as int, place as int);
            assert(s.len() == n * bpc);
        }
        let digit = grid.get_place(place)?;
        if digit >= profile.palette_size {
            return Err(GlyphixError::ColorOutOfRange { index: digit, palette_size: profile.palette_size });
        }
        let mut i: usize = bpc;
        while i > 0
            invariant
                1 <= bpc <= 31,
                i <= bpc,
                place < n,
                place * bpc + bpc <= s.len(),
                digit == grid@.place(place as int),
                s == stream_of_glyph(*profile, grid@),
                bpc == profile.bpc(),
                out@ == old(out)@ + s.take(place * bpc + (bpc - i)),
            decreases i,
        {
            let shift = (i - 1) as u32;
            let bit = (digit >> shift) & 1 == 1;
            proof {
                let j = place * bpc + (bpc - i);
                vstd::bits::lemma_u32_shr_is_div(digit, shift);
                let v = digit >> shift;
                assert(v & 1 == v % 2) by (bit_vector);
                lemma_bits_msb_len(digit as nat, bpc as nat);
                lemma_bits_msb_index(digit as nat, bpc as nat, (bpc - i) as int);
                lemma_fundamental_div_mod_converse(j, bpc as int, place as int, (bpc - i) as int);
                assert(j == bpc * place + (bpc - i)) by (nonlinear_arith)
                    requires
                        j == place * bpc + (bpc - i),
                ;
                assert(s[j] == bit);
                assert(s.take(j + 1) =~= s.take(j).push(bit));
            }
            out.push(bit);
            i = i - 1;
        }
        place = place + 1;
        proof {
            assert((place - 1) * bpc + bpc == place * bpc) by (nonlinear_arith);
        }
    }
    proof {
        assert(s.len() == n * bpc);
        assert(s.take(n * bpc) =~= s);
    }
    Ok(())
}


// --- Human bit-string notation (place 0 = rightmost bit) -------------------------

/// Characters ignored inside bit strings (for grouping).
pub open spec fn is_bit_separator(c: char) -> bool {
    c == ' ' || c == '\t' || c == '\n' || c == '\r' || c == '_' || c == '-'
}

/// Every character is a bit or a separator.
pub open spec fn bit_chars_ok(s: Seq<char>) -> bool {
    forall|i: int| 0 <= i < s.len() ==> (#[trigger] s[i] == '0' || s[i] == '1' || is_bit_separator(s[i]))
}

/// A bit or a separator.
pub open spec fn bit_char_ok(c: char) -> bool {
    c == '0' || c == '1' || is_bit_separator(c)
}

/// Index of the first character that is neither a bit nor a separator.
pub open spec fn first_bad_bit_char(s: Seq<char>) -> int {
    choose|i: int| 0 <= i < s.len() && !bit_char_ok(s[i]) && forall|j: int| 0 <= j < i ==> bit_char_ok(#[trigger] s[j])
}

/// The error for a string that `bit_chars_ok` rejects: its first bad character.
pub open spec fn bit_string_error(s: Seq<char>) -> GlyphixError {
    let i = first_bad_bit_char(s);
    GlyphixError::InvalidBitString(message(
        "invalid character "@ + char_debug_text(s[i]) + " at index "@ + decimal(i as nat)
            + "; only 0/1 (and _ - whitespace) allowed"@,
    ))
}

/// The bits written in a string, separators dropped.
pub open spec fn bits_of_str(s: Seq<char>) -> Seq<bool>
    decreases s.len(),
{
    if s.len() == 0 {
        Seq::empty()
    } else {
        let r = bits_of_str(s.drop_last());
        if s.last() == '0' {
            r.push(false)
        } else if s.last() == '1' {
            r.push(true)
        } else {
            r
        }
    }
}

/// Bits normalized to length `n`: pad zeros on the left, or keep the left `n`.
pub open spec fn normalize_spec(bits: Seq<bool>, n: nat) -> Seq<bool> {
    if bits.len() >= n {
        bits.take(n as int)
    } else {
        Seq::new((n - bits.len()) as nat, |i: int| false) + bits
    }
}

/// The glyph written by a normalized bit string: cell `i` (row-major) holds the
/// digit read MSB-first from bits `i*k .. i*k + k`, so the rightmost digit lands on
/// place 0 (bottom-right).
pub open spec fn grid_of_notation(p: GlyphProfile, bits: Seq<bool>) -> GridView {
    let k = p.bpc();
    GridView {
        width: p.width,
        height: p.height,
        cells: Seq::new(p.cells(), |i: int| bits_value(bits.subrange(i * k, i * k + k)) as u32),
    }
}

/// The bit string of a glyph (left = high place, right = place 0).
pub open spec fn notation_of_grid(p: GlyphProfile, g: GridView) -> Seq<bool> {
    let k = p.bpc();
    Seq::new(p.bpg(), |j: int| bits_msb(g.cells[j / k as int] as nat, k)[j % k as int])
}

/// Characters of a bit sequence.
pub open spec fn bit_chars(bits: Seq<bool>) -> Seq<char> {
    Seq::new(bits.len(), |j: int| if bits[j] { '1' } else { '0' })
}

/// Parse a bit string into a `Vec<bool>`.
///
/// Allowed characters: `0`, `1`. Whitespace, `_`, and `-` are ignored (for
/// grouping). Any other character is an error.
pub fn parse_bit_string(s: &str) -> (r: Result<Vec<bool>>)
    ensures
        r is Ok <==> bit_chars_ok(s@),
        r matches Ok(v) ==> v@ == bits_of_str(s@),
        r matches Err(e) ==> e.agrees(bit_string_error(s@)),
{
    let n = s.unicode_len();
    let mut bits: Vec<bool> = Vec::new();
    let mut i: usize = 0;
    while i < n
        invariant
            n == s@.len(),
            i <= n,
            bit_chars_ok(s@.take(i as int)),
            bits@ == bits_of_str(s@.take(i as int)),
        decreases n - i,
    {
        let ch = s.get_char(i);
        proof {
            assert(s@.take(i + 1).drop_last() =~= s@.take(i as int));
        }
        if ch == '0' {
            bits.push(false);
        } else if ch == '1' {
            bits.push(true);
        } else if ch == ' ' || ch == '\t' || ch == '\n' || ch == '\r' || ch == '_' || ch == '-' {
        } else {
            proof {
                assert(!bit_chars_ok(s@)) by {
                    assert(s@[i as int] == ch);
                }
                assert forall|j: int| 0 <= j < i implies bit_char_ok(#[trigger] s@[j]) by {
                    assert(s@.take(i as int)[j] == s@[j]);
                }
                let k = first_bad_bit_char(s@);
                assert(s@[i as int] == ch && !bit_char_ok(s@[i as int]));
                if k < i {
                    assert(bit_char_ok(s@[k]));
                }
                if k > i {
                    assert(bit_char_ok(s@[i as int]));
                }
                assert(k == i);
            }
            let mut msg = "invalid character ".to_string();
            let shown = char_debug(ch);
            msg.append(shown.as_str());
            msg.append(" at index ");
            crate::text::push_decimal(&mut msg, i as u64);
            msg.append("; only 0/1 (and _ - whitespace) allowed");
            return Err(GlyphixError::InvalidBitString(msg));
        }
        i = i + 1;
        proof {
            assert forall|j: int| 0 <= j < i implies (#[trigger] s@.take(i as int)[j] == '0' || s@.take(i as int)[j] == '1'
                || is_bit_separator(s@.take(i as int)[j])) by {
                if j < i - 1 {
                    assert(s@.take(i as int)[j] == s@.take(i - 1)[j]);
                }
            }
        }
    }
    assert(s@.take(n as int) =~= s@);
    Ok(bits)
}

/// Normalize bits to exactly `n_bits` length.
///
/// Shorter: pad with `0` on the **left** (high side). Longer: discard bits on the
/// **right** (keep the left `n_bits`). Empty input becomes `n_bits` zeros.
pub fn normalize_bit_string(bits: &[bool], n_bits: usize) -> (out: Vec<bool>)
    ensures
        out@ == normalize_spec(bits@, n_bits as nat),
{
    let mut out: Vec<bool> = Vec::new();
    if n_bits == 0 {
        assert(out@ =~= normalize_spec(bits@, 0));
        return out;
    }
    if bits.len() >= n_bits {
        let mut i: usize = 0;
        while i < n_bits
            invariant
                i <= n_bits <= bits@.len(),
                out@ == bits@.take(i as int),
            decreases n_bits - i,
        {
            out.push(bits[i]);
            i = i + 1;
            assert(out@ =~= bits@.take(i as int));
        }
        return out;
    }
    let pad = n_bits - bits.len();
    let mut i: usize = 0;
    while i < pad
        invariant
            i <= pad,
            out@ == Seq::new(i as nat, |j: int| false),
        decreases pad - i,
    {
        out.push(false);
        i = i + 1;
        assert(out@ =~= Seq::new(i as nat, |j: int| false));
    }
    let mut j: usize = 0;
    while j < bits.len()
        invariant
            j <= bits@.len(),
            out@ == Seq::new(pad as nat, |k: int| false) + bits@.take(j as int),
        decreases bits@.len() - j,
    {
        out.push(bits[j]);
        j = j + 1;
        assert(out@ =~= Seq::new(pad as nat, |k: int| false) + bits@.take(j as int));
    }
    assert(bits@.take(bits@.len() as int) =~= bits@);
    out
}

/// Parse + normalize in one step.
pub fn parse_and_normalize_bit_string(s: &str, n_bits: usize) -> (r: Result<Vec<bool>>)
    ensures
        r is Ok <==> bit_chars_ok(s@),
        r matches Ok(v) ==> v@ == normalize_spec(bits_of_str(s@), n_bits as nat),
        r matches Err(e) ==> e.agrees(bit_string_error(s@)),
{
    let raw = parse_bit_string(s)?;
    Ok(normalize_bit_string(raw.as_slice(), n_bits))
}

/// Paint from an already-normalized bit slice (`len == bits_per_glyph`).
/// Left = high place, right = place 0.
pub fn paint_normalized_bits(profile: &GlyphProfile, bits: &[bool]) -> (r: Result<Grid>)
    requires
        profile.wf(),
    ensures
        r is Ok <==> bits@.len() == profile.bpg(),
        r matches Ok(g) ==> g@ == grid_of_notation(*profile, bits@) && g@.wf(),
        r matches Err(e) ==> e.agrees(GlyphixError::InvalidBitString(message(
            "expected "@ + decimal(profile.bpg()) + " bits after normalize, got "@ + decimal(bits@.len()),
        ))),
{
    proof {
        profile.lemma_wf();
    }
    let n = profile.bits_per_glyph();
    if bits.len() != n {
        let mut msg = "expected ".to_string();
        crate::text::push_decimal(&mut msg, n as u64);
        msg.append(" bits after normalize, got ");
        crate::text::push_decimal(&mut msg, bits.len() as u64);
        return Err(GlyphixError::InvalidBitString(msg));
    }
    let bpc = profile.bits_per_cell() as usize;
    let cells = profile.cell_count();
    let mut grid = Grid::from_profile(profile);
    let ghost target = grid_of_notation(*profile, bits@);
    let mut place: usize = 0;
    while place < cells
        invariant
            profile.wf(),
            cells == profile.cells(),
            bpc == profile.bpc(),
            n == profile.bpg(),
            n == cells * bpc,
            1 <= bpc <= 31,
            bits@.len() == n,
            target == grid_of_notation(*profile, bits@),
            place <= cells,
            grid@.wf(),
            grid@.width == profile.width,
            grid@.height == profile.height,
            forall|i: int| 0 <= i < cells ==> grid@.cells[i] == if cells - 1 - i < place { target.cells[i] } else { 0u32 },
        decreases cells - place,
    {
        let ghost ci = cells - 1 - place;
        proof {
            lemma_digit_window(cells as int, bpc as int, ci);
            assert((place + 1) * bpc + ci * bpc == n) by (nonlinear_arith)
                requires
                    ci == cells - 1 - place,
                    n == cells * bpc,
            ;
        }
        let start = n - (place + 1) * bpc;
        let mut digit: u32 = 0;
        let mut k: usize = 0;
        while k < bpc
            invariant
                1 <= bpc <= 31,
                k <= bpc,
                bits@.len() == n,
                start + bpc <= n,
                digit == bits_value(bits@.subrange(start as int, start + k)),
            decreases bpc - k,
        {
            let bit = bits[start + k];
            proof {
                let w = bits@.subrange(start as int, start + k);
                lemma_bits_value_bound(w);
                lemma_pow2_strictly_increases(k as nat, 31);
                lemma2_to64();
                assert(bits@.subrange(start as int, start + k + 1) =~= w.push(bit));
                lemma_bits_value_push(w, bit);
            }
            digit = digit * 2 + if bit { 1 } else { 0 };
            k = k + 1;
        }
        proof {
            let w = bits@.subrange(start as int, start + bpc);
            lemma_bits_value_bound(w);
            profile.lemma_wf();
            assert(start == ci * bpc);
            assert(target.cells[ci] == digit);
        }
        if digit >= profile.palette_size {
            return Err(GlyphixError::ColorOutOfRange { index: digit, palette_size: profile.palette_size });
        }
        grid.set_place(place, digit)?;
        place = place + 1;
    }
    proof {
        assert(grid@.cells =~= target.cells);
    }
    Ok(grid)
}

/// Paint one glyph from a human bit string.
///
/// The **rightmost** bit is place 0 (bottom-right); shorter strings are padded
/// left with zeros; longer strings drop right bits. Multi-bit color profiles use
/// `log2(C)` bits per place (MSB-first within each digit). No frame header.
pub fn paint_bit_string(profile: &GlyphProfile, bit_str: &str) -> (r: Result<Grid>)
    requires
        profile.wf(),
    ensures
        r is Ok <==> bit_chars_ok(bit_str@),
        r matches Ok(g) ==> g@ == grid_of_notation(*profile, normalize_spec(bits_of_str(bit_str@), profile.bpg()))
            && g@.wf(),
        r matches Err(e) ==> e.agrees(bit_string_error(bit_str@)),
{
    let n = profile.bits_per_glyph();
    let bits = parse_and_normalize_bit_string(bit_str, n)?;
    proof {
        profile.lemma_wf();
    }
    paint_normalized_bits(profile, bits.as_slice())
}

/// Format a glyph as a bit string (left = high place, right = place 0).
///
/// Inverse of [`paint_bit_string`] for a single glyph (no separators).
pub fn grid_to_bit_string(profile: &GlyphProfile, grid: &Grid) -> (r: Result<String>)
    requires
        profile.wf(),
        grid@.wf(),
    ensures
        r is Ok <==> profile_check(grid@, *profile) is Ok,
        r matches Ok(s) ==> s@ == bit_chars(notation_of_grid(*profile, grid@)),
        r matches Err(e) ==> Err::<(), GlyphixError>(e) == profile_check(grid@, *profile),
{
    grid.validate_profile(profile)?;
    proof {
        profile.lemma_wf();
        reveal_strlit("0");
        reveal_strlit("1");
    }
    let bpc = profile.bits_per_cell() as usize;
    let cells = profile.cell_count();
    let ghost target = bit_chars(notation_of_grid(*profile, grid@));
    let mut out = String::new();
    let mut i: usize = 0;
    while i < cells
        invariant
            profile.wf(),
            grid@.wf(),
            grid@.width == profile.width,
            grid@.height == profile.height,
            cells == profile.cells(),
            bpc == profile.bpc(),
            1 <= bpc <= 31,
            target == bit_chars(notation_of_grid(*profile, grid@)),
            target.len() == cells * bpc,
            i <= cells,
            out@ == target.take(i * bpc),
        decreases cells - i,
    {
        proof {
            lemma_digit_window(cells as int, bpc as int, i as int);
            assert(grid@.cells.len() == cells);
        }
        let digit = grid.cells()[i];
        let mut k: usize = 0;
        while k < bpc
            invariant
                1 <= bpc <= 31,
                k <= bpc,
                i < cells,
                grid@.cells.len() == cells,
                i * bpc + bpc <= target.len(),
                digit == grid@.cells[i as int],
                bpc == profile.bpc(),
                target == bit_chars(notation_of_grid(*profile, grid@)),
                out@ == target.take(i * bpc + k),
            decreases bpc - k,
        {
            let shift = (bpc - 1 - k) as u32;
            let bit = (digit >> shift) & 1 == 1;
            proof {
                reveal_strlit("0");
                reveal_strlit("1");
                let j = i * bpc + k;
                vstd::bits::lemma_u32_shr_is_div(digit, shift);
                let v = digit >> shift;
                assert(v & 1 == v % 2) by (bit_vector);
                lemma_bits_msb_len(digit as nat, bpc as nat);
                lemma_bits_msb_index(digit as nat, bpc as nat, k as int);
                lemma_fundamental_div_mod_converse(j, bpc as int, i as int, k as int);
                assert(j == bpc * i + k) by (nonlinear_arith)
                    requires
                        j == i * bpc + k,
                ;
                assert(target[j] == if bit { '1' } else { '0' });
                assert(target.take(j + 1) =~= target.take(j).push(if bit { '1' } else { '0' }));
            }
            if bit {
                out.append("1");
            } else {
                out.append("0");
            }
            k = k + 1;
        }
        i = i + 1;
        proof {
            assert((i - 1) * bpc + bpc == i * bpc) by (nonlinear_arith);
        }
    }
    proof {
        assert(target.take(cells * bpc) =~= target);
    }
    Ok(out)
}

/// Reading a painted notation returns the bits.
pub proof fn lemma_notation_roundtrip(p: GlyphProfile, bits: Seq<bool>)
    requires
        p.wf(),
        bits.len() == p.bpg(),
    ensures
        notation_of_grid(p, grid_of_notation(p, bits)) == bits,
{
    p.lemma_wf();
    let n = p.cells() as int;
    let k = p.bpc() as int;
    let g = grid_of_notation(p, bits);
    let s = notation_of_grid(p, g);
    assert forall|j: int| 0 <= j < bits.len() implies s[j] == bits[j] by {
        lemma_fundamental_div_mod(j, k);
        let q = j / k;
        let r = j % k;
        assert(0 <= q < n) by (nonlinear_arith)
            requires
                j == k * q + r,
                0 <= r < k,
                0 <= j < n * k,
                k >= 1,
        ;
        lemma_digit_window(n, k, q);
        let w = bits.subrange(q * k, q * k + k);
        lemma_bits_value_bound(w);
        vstd::bits::lemma_u32_pow2_no_overflow(k as nat);
        lemma_bits_msb_of_value(w);
        assert(w[r] == bits[j]);
    }
    assert(s =~= bits);
}

/// Painting the notation of a glyph returns the glyph.
pub proof fn lemma_grid_notation_roundtrip(p: GlyphProfile, g: GridView)
    requires
        p.wf(),
        g.wf(),
        g.width == p.width,
        g.height == p.height,
        g.colors_below(p.palette_size),
    ensures
        grid_of_notation(p, notation_of_grid(p, g)) == g,
{
    p.lemma_wf();
    let n = p.cells() as int;
    let k = p.bpc() as int;
    let s = notation_of_grid(p, g);
    let h = grid_of_notation(p, s);
    assert forall|i: int| 0 <= i < n implies h.cells[i] == g.cells[i] by {
        lemma_digit_window(n, k, i);
        let w = s.subrange(i * k, i * k + k);
        lemma_bits_msb_len(g.cells[i] as nat, k as nat);
        assert forall|r: int| 0 <= r < k implies w[r] == bits_msb(g.cells[i] as nat, k as nat)[r] by {
            lemma_fundamental_div_mod_converse(i * k + r, k, i, r);
            assert(i * k + r == k * i + r) by (nonlinear_arith);
        }
        assert(w =~= bits_msb(g.cells[i] as nat, k as nat));
        lemma_value_of_bits_msb(g.cells[i] as nat, k as nat);
        vstd::arithmetic::div_mod::lemma_small_mod(g.cells[i] as nat, pow2(k as nat));
    }
    assert(h.cells =~= g.cells);
}


// --- Place values -------------------------------------------------------------------

/// The glyph holding digits `ds` in place order (`ds[0]` at place 0, bottom-right).
pub open spec fn grid_of_digits(p: GlyphProfile, ds: Seq<u32>) -> GridView {
    let n = p.cells();
    GridView { width: p.width, height: p.height, cells: Seq::new(n, |i: int| ds[n - 1 - i]) }
}

/// Digit of `v` at place `q` in base `2^k`.
pub open spec fn place_digit(v: nat, k: nat, q: nat) -> nat {
    (v / pow2(k * q)) % pow2(k)
}

/// The glyph of a value: place `q` holds the base-`C` digit of `v` at `q`
/// (`C = 2^bits_per_cell`).
pub open spec fn grid_of_value(p: GlyphProfile, v: nat) -> GridView {
    let n = p.cells();
    GridView {
        width: p.width,
        height: p.height,
        cells: Seq::new(n, |i: int| place_digit(v, p.bpc(), (n - 1 - i) as nat) as u32),
    }
}

/// Value of the lowest `m` places of a glyph, base `2^k`.
pub open spec fn places_value(g: GridView, k: nat, m: nat) -> nat
    decreases m,
{
    if m == 0 {
        0
    } else {
        places_value(g, k, (m - 1) as nat) + g.place(m - 1) as nat * pow2(k * (m - 1) as nat)
    }
}

/// The value a glyph spells: \(\sum_p d_p C^p\).
pub open spec fn value_of_grid(p: GlyphProfile, g: GridView) -> nat {
    places_value(g, p.bpc(), p.cells())
}

proof fn lemma_pow2_mul_step(k: nat, q: nat)
    ensures
        pow2(k * (q + 1)) == pow2(k * q) * pow2(k),
        k * (q + 1) == k * q + k,
{
    assert(k * (q + 1) == k * q + k) by (nonlinear_arith);
    lemma_pow2_adds(k * q, k);
}

/// Paint precomputed digits \(d_0, d_1, \ldots\) (place order) onto a grid.
pub fn paint_digits(profile: &GlyphProfile, digits: &[u32]) -> (r: Result<Grid>)
    requires
        profile.wf(),
    ensures
        r is Ok <==> digits@.len() == profile.cells() && palette_check(digits@, profile.palette_size) is Ok,
        r matches Ok(g) ==> g@ == grid_of_digits(*profile, digits@) && g@.wf(),
        r matches Err(e) ==> if digits@.len() != profile.cells() {
            e.agrees(GlyphixError::InvalidProfile(message(
                "expected "@ + decimal(profile.cells()) + " digits, got "@ + decimal(digits@.len()),
            )))
        } else {
            Err::<(), GlyphixError>(e) == palette_check(digits@, profile.palette_size)
        },
{
    proof {
        profile.lemma_wf();
    }
    let n = profile.cell_count();
    if digits.len() != n {
        let mut msg = "expected ".to_string();
        crate::text::push_decimal(&mut msg, n as u64);
        msg.append(" digits, got ");
        crate::text::push_decimal(&mut msg, digits.len() as u64);
        return Err(GlyphixError::InvalidProfile(msg));
    }
    let mut grid = Grid::from_profile(profile);
    let ghost target = grid_of_digits(*profile, digits@);
    let mut place: usize = 0;
    assert(digits@.skip(0) =~= digits@);
    while place < n
        invariant
            profile.wf(),
            n == profile.cells(),
            digits@.len() == n,
            target == grid_of_digits(*profile, digits@),
            place <= n,
            palette_check(digits@, profile.palette_size) == palette_check(digits@.skip(place as int), profile.palette_size),
            grid@.wf(),
            grid@.width == profile.width,
            grid@.height == profile.height,
            forall|i: int| 0 <= i < n ==> grid@.cells[i] == if n - 1 - i < place { target.cells[i] } else { 0u32 },
        decreases n - place,
    {
        let d = digits[place];
        assert(digits@.skip(place as int)[0] == d);
        if d >= profile.palette_size {
            return Err(GlyphixError::ColorOutOfRange { index: d, palette_size: profile.palette_size });
        }
        assert(digits@.skip(place as int).drop_first() =~= digits@.skip(place + 1));
        grid.set_place(place, d)?;
        proof {
            assert(target.cells[n - 1 - place] == d) by {
                assert(n - 1 - (n - 1 - place) == place);
            }
        }
        place = place + 1;
    }
    proof {
        assert(digits@.skip(n as int) =~= Seq::<u32>::empty());
        assert(grid@.cells =~= target.cells);
    }
    Ok(grid)
}

/// Encode `value` onto a fresh grid by base-\(C\) place expansion: the digit of
/// \(C^p\) goes to place `p`. Fails when the value does not fit the glyph.
pub fn paint_value_u128(profile: &GlyphProfile, value: u128) -> (r: Result<Grid>)
    requires
        profile.wf(),
    ensures
        r is Ok <==> value < pow2(profile.bpg()),
        r matches Ok(g) ==> g@ == grid_of_value(*profile, value as nat) && g@.wf(),
        r matches Err(e) ==> e.agrees(GlyphixError::InvalidProfile(message("value does not fit in this glyph"@))),
{
    proof {
        profile.lemma_wf();
        lemma2_to64();
        lemma_pow2_adds(64, 64);
    }
    let c = profile.palette_size as u128;
    let n = profile.cell_count();
    let bpg = profile.bits_per_glyph();
    let ghost k = profile.bpc();
    if bpg < 128 {
        proof {
            vstd::bits::lemma_u128_shr_is_div(value, bpg as u128);
        }
        if value >> (bpg as u128) != 0 {
            proof {
                lemma_pow2_pos(bpg as nat);
                if value < pow2(bpg as nat) {
                    lemma_fundamental_div_mod_converse(value as int, pow2(bpg as nat) as int, 0, value as int);
                }
            }
            return Err(GlyphixError::InvalidProfile("value does not fit in this glyph".to_string()));
        }
        proof {
            lemma_pow2_pos(bpg as nat);
            lemma_fundamental_div_mod(value as int, pow2(bpg as nat) as int);
        }
    } else {
        proof {
            if bpg > 128 {
                lemma_pow2_strictly_increases(128, bpg as nat);
            }
        }
    }
    assert(value < pow2(bpg as nat));
    let mut grid = Grid::from_profile(profile);
    let ghost target = grid_of_value(*profile, value as nat);
    let mut rest = value;
    let mut place: usize = 0;
    proof {
        assert(k * 0 == 0);
        assert(value as nat / 1 == value);
    }
    while place < n
        invariant
            profile.wf(),
            n == profile.cells(),
            k == profile.bpc(),
            1 <= k <= 31,
            c == pow2(k),
            target == grid_of_value(*profile, value as nat),
            place <= n,
            rest == value as nat / pow2(k * place as nat),
            grid@.wf(),
            grid@.width == profile.width,
            grid@.height == profile.height,
            forall|i: int| 0 <= i < n ==> grid@.cells[i] == if n - 1 - i < place { target.cells[i] } else { 0u32 },
        decreases n - place,
    {
        proof {
            lemma_pow2_pos(k);
            vstd::bits::lemma_u32_pow2_no_overflow(k);
        }
        let digit = (rest % c) as u32;
        proof {
            assert(digit == place_digit(value as nat, k, place as nat));
            assert(target.cells[n - 1 - place] == digit) by {
                assert(n - 1 - (n - 1 - place) == place);
            }
            lemma_pow2_mul_step(k, place as nat);
            lemma_pow2_pos(k * place as nat);
            lemma_div_denominator(value as int, pow2(k * place as nat) as int, pow2(k) as int);
        }
        rest = rest / c;
        grid.set_place(place, digit)?;
        place = place + 1;
    }
    proof {
        profile.lemma_wf();
        lemma_pow2_pos(profile.bpg());
        assert(k * n == profile.bpg()) by (nonlinear_arith)
            requires
                profile.bpg() == n * k,
        ;
        lemma_fundamental_div_mod_converse(value as int, pow2(profile.bpg()) as int, 0, value as int);
    }
    if rest != 0 {
        return Err(GlyphixError::InvalidProfile("value does not fit in this glyph".to_string()));
    }
    proof {
        assert(grid@.cells =~= target.cells);
    }
    Ok(grid)
}

/// Recover the value spelled by a grid (only when `bits_per_glyph <= 128`).
pub fn value_u128(profile: &GlyphProfile, grid: &Grid) -> (r: Result<u128>)
    requires
        profile.wf(),
        grid@.wf(),
    ensures
        r is Ok <==> profile.bpg() <= 128 && profile_check(grid@, *profile) is Ok,
        r matches Ok(v) ==> v == value_of_grid(*profile, grid@),
        r matches Err(e) ==> if profile.bpg() > 128 {
            e.agrees(GlyphixError::InvalidProfile(message("value_u128 only for glyphs ≤ 128 bits"@)))
        } else {
            Err::<(), GlyphixError>(e) == profile_check(grid@, *profile)
        },
{
    proof {
        profile.lemma_wf();
    }
    if profile.bits_per_glyph() > 128 {
        return Err(GlyphixError::InvalidProfile("value_u128 only for glyphs ≤ 128 bits".to_string()));
    }
    grid.validate_profile(profile)?;
    proof {
        lemma_palette_check_ok(grid@.cells, profile.palette_size);
        lemma2_to64();
        lemma_pow2_adds(64, 64);
    }
    let c = profile.palette_size as u128;
    let n = profile.cell_count();
    let ghost k = profile.bpc();
    let ghost g = grid@;
    let mut v: u128 = 0;
    let mut place_pow: u128 = 1;
    let mut place: usize = 0;
    proof {
        assert(k * 0 == 0);
    }
    while place < n
        invariant
            profile.wf(),
            g == grid@,
            g.wf(),
            g.width == profile.width,
            g.height == profile.height,
            g.colors_below(profile.palette_size),
            n == profile.cells(),
            k == profile.bpc(),
            1 <= k <= 31,
            k * n <= 128,
            c == pow2(k),
            c == profile.palette_size,
            pow2(128) == 0x1_0000_0000_0000_0000_0000_0000_0000_0000nat,
            place <= n,
            v == places_value(g, k, place as nat),
            v < pow2(k * place as nat),
            place < n ==> place_pow == pow2(k * place as nat),
        decreases n - place,
    {
        let d = grid.get_place(place)? as u128;
        proof {
            let q = place as nat;
            assert(d < c) by {
                let idx = g.n() - 1 - q;
                assert(0 <= idx < g.cells.len());
                assert(g.cells[idx] < profile.palette_size);
            }
            lemma_pow2_mul_step(k, q);
            assert(k * (q + 1) <= 128) by (nonlinear_arith)
                requires
                    q + 1 <= n,
                    k * n <= 128,
            ;
            if k * (q + 1) < 128 {
                lemma_pow2_strictly_increases(k * (q + 1), 128);
            }
            assert(d * place_pow + v < pow2(k * (q + 1))) by (nonlinear_arith)
                requires
                    d < c,
                    place_pow == pow2(k * q),
                    v < pow2(k * q),
                    pow2(k * (q + 1)) == pow2(k * q) * c,
            ;
        }
        v = v + d * place_pow;
        place_pow = match place_pow.checked_mul(c) {
            Some(x) => x,
            None => 0,
        };
        place = place + 1;
        proof {
            let q = (place - 1) as nat;
            if place < n {
                assert(k * (q + 1) < 128) by (nonlinear_arith)
                    requires
                        q + 1 < n,
                        k * n <= 128,
                        k >= 1,
                ;
                lemma_pow2_strictly_increases(k * (q + 1), 128);
            }
        }
    }
    Ok(v)
}

/// Reading back a painted value gives the value.
pub proof fn lemma_value_roundtrip(p: GlyphProfile, v: nat)
    requires
        p.wf(),
        v < pow2(p.bpg()),
    ensures
        value_of_grid(p, grid_of_value(p, v)) == v,
{
    p.lemma_wf();
    lemma_places_value_of_value(p, v, p.cells());
    assert(p.bpc() * p.cells() == p.bpg()) by (nonlinear_arith)
        requires
            p.bpg() == p.cells() * p.bpc(),
    ;
    vstd::arithmetic::div_mod::lemma_small_mod(v, pow2(p.bpg()));
}

proof fn lemma_places_value_of_value(p: GlyphProfile, v: nat, m: nat)
    requires
        p.wf(),
        m <= p.cells(),
    ensures
        places_value(grid_of_value(p, v), p.bpc(), m) == v % pow2(p.bpc() * m),
    decreases m,
{
    p.lemma_wf();
    let k = p.bpc();
    let n = p.cells();
    let g = grid_of_value(p, v);
    if m == 0 {
        assert(k * 0 == 0);
        lemma2_to64();
    } else {
        let q = (m - 1) as nat;
        lemma_places_value_of_value(p, v, q);
        assert(g.place(q as int) == g.cells[n - 1 - q]);
        assert(n - 1 - (n - 1 - q) == q);
        lemma_pow2_mul_step(k, q);
        lemma_pow2_pos(k);
        lemma_pow2_pos(k * q);
        vstd::bits::lemma_u32_pow2_no_overflow(k);
        vstd::arithmetic::div_mod::lemma_mod_breakdown(v as int, pow2(k * q) as int, pow2(k) as int);
        assert(place_digit(v, k, q) < pow2(k)) by {
            vstd::arithmetic::div_mod::lemma_mod_bound((v / pow2(k * q)) as int, pow2(k) as int);
        }
        assert(g.place(q as int) as nat == place_digit(v, k, q));
        assert(places_value(g, k, m) == places_value(g, k, q) + place_digit(v, k, q) * pow2(k * q));
        assert(pow2(k * q) * place_digit(v, k, q) == place_digit(v, k, q) * pow2(k * q)) by (nonlinear_arith);
    }
}

/// Every glyph of the profile is the glyph of the value it spells: painting
/// and reading values are inverse bijections between `0 .. C^(W·H)` and glyphs.
pub proof fn lemma_grid_value_roundtrip(p: GlyphProfile, g: GridView)
    requires
        p.wf(),
        g.wf(),
        g.width == p.width,
        g.height == p.height,
        g.colors_below(p.palette_size),
    ensures
        value_of_grid(p, g) < pow2(p.bpg()),
        grid_of_value(p, value_of_grid(p, g)) == g,
{
    let bits = notation_of_grid(p, g);
    lemma_grid_notation_roundtrip(p, g);
    lemma_notation_is_value(p, bits);
    lemma_bits_value_bound(bits);
    lemma_value_roundtrip(p, bits_value(bits));
}

/// The glyph written by a bit string is the glyph of the number that string spells.
pub proof fn lemma_notation_is_value(p: GlyphProfile, bits: Seq<bool>)
    requires
        p.wf(),
        bits.len() == p.bpg(),
    ensures
        grid_of_notation(p, bits) == grid_of_value(p, bits_value(bits)),
{
    p.lemma_wf();
    let n = p.cells() as int;
    let k = p.bpc() as int;
    let a = grid_of_notation(p, bits);
    let b = grid_of_value(p, bits_value(bits));
    assert forall|i: int| 0 <= i < n implies a.cells[i] == b.cells[i] by {
        let q = n - 1 - i;
        lemma_digit_window(n, k, i);
        let hi = bits.subrange(0, i * k);
        let w = bits.subrange(i * k, i * k + k);
        let lo = bits.subrange(i * k + k, n * k);
        assert(lo.len() == k * q) by (nonlinear_arith)
            requires
                lo.len() == n * k - (i * k + k),
                q == n - 1 - i,
        ;
        assert(bits =~= (hi + w) + lo);
        assert(hi + w =~= bits.subrange(0, i * k + k));
        lemma_bits_value_concat(hi + w, lo);
        lemma_bits_value_concat(hi, w);
        lemma_bits_value_bound(lo);
        lemma_bits_value_bound(w);
        lemma_pow2_pos(k as nat);
        lemma_pow2_pos(lo.len());
        let top = bits_value(hi + w);
        lemma_fundamental_div_mod_converse(bits_value(bits) as int, pow2(lo.len()) as int, top as int, bits_value(lo) as int);
        lemma_fundamental_div_mod_converse(top as int, pow2(k as nat) as int, bits_value(hi) as int, bits_value(w) as int);
        assert(place_digit(bits_value(bits), k as nat, q as nat) == bits_value(w));
        vstd::bits::lemma_u32_pow2_no_overflow(k as nat);
    }
    assert(a.cells =~= b.cells);
}


// --- Glyph sequences from bit strings -----------------------------------------------

/// How multi-glyph bit strings are split.
#[derive(Debug, Clone, Copy, PartialEq, Eq, Default, Structural)]
pub enum BitSequenceMode {
    /// Comma-separated if `,` is present, else a continuous stream.
    #[default]
    Auto,
    /// Continuous bit stream: fill glyph 0, then glyph 1, … (no mid-stream discard).
    /// A partial final glyph is **left-padded** with zeros.
    Stream,
    /// Comma-separated glyphs; each field uses single-glyph pad-left / trunc-right.
    CommaSeparated,
}

/// Fields of `s` split at each comma, as `str::split(',')` gives them.
pub open spec fn comma_fields(s: Seq<char>) -> Seq<Seq<char>>
    decreases s.len(),
{
    if s.len() == 0 {
        seq![Seq::empty()]
    } else {
        let f = comma_fields(s.drop_last());
        if s.last() == ',' {
            f.push(Seq::empty())
        } else {
            f.update(f.len() - 1, f.last().push(s.last()))
        }
    }
}

pub proof fn lemma_comma_fields_nonempty(s: Seq<char>)
    ensures
        comma_fields(s).len() >= 1,
    decreases s.len(),
{
    if s.len() > 0 {
        lemma_comma_fields_nonempty(s.drop_last());
    }
}

/// The glyph one comma field paints: the trimmed field, as by [`paint_bit_string`].
pub open spec fn field_glyph(p: GlyphProfile, f: Seq<char>) -> GridView {
    grid_of_notation(p, normalize_spec(bits_of_str(trim_spec(f)), p.bpg()))
}

/// Every trimmed field is a valid bit string.
pub open spec fn fields_ok(fs: Seq<Seq<char>>) -> bool {
    forall|i: int| 0 <= i < fs.len() ==> bit_chars_ok(trim_spec(#[trigger] fs[i]))
}

/// `gs` cut to `n` glyphs, or padded with blank glyphs up to `n`.
pub open spec fn fit_count(p: GlyphProfile, gs: Seq<GridView>, n: nat) -> Seq<GridView> {
    Seq::new(n, |i: int| if i < gs.len() { gs[i] } else { GridView::zeros(p.width, p.height) })
}

/// Index of the first field whose trimmed text is not a valid bit string.
pub open spec fn first_bad_field(fs: Seq<Seq<char>>) -> int {
    choose|i: int| 0 <= i < fs.len() && !bit_chars_ok(trim_spec(fs[i]))
        && forall|j: int| 0 <= j < i ==> bit_chars_ok(trim_spec(#[trigger] fs[j]))
}

/// Glyphs of a comma-separated bit string.
pub open spec fn comma_spec(p: GlyphProfile, s: Seq<char>, count: Option<usize>) -> Result<Seq<GridView>> {
    let fs = comma_fields(s);
    let gs = fs.map_values(|f: Seq<char>| field_glyph(p, f));
    if !fields_ok(fs) {
        Err(bit_string_error(trim_spec(fs[first_bad_field(fs)])))
    } else {
        match count {
            Some(n) => if n == 0 {
                Err(GlyphixError::EmptyGlyphSequence)
            } else if n > p.max_glyphs {
                Err(GlyphixError::GlyphCountExceeded { count: n, cap: p.max_glyphs })
            } else {
                Ok(fit_count(p, gs, n as nat))
            },
            None => if gs.len() > p.max_glyphs {
                Err(GlyphixError::GlyphCountExceeded { count: gs.len() as usize, cap: p.max_glyphs })
            } else {
                Ok(gs)
            },
        }
    }
}

/// Chunk `i` of a stream cut into `b`-bit glyphs; a short chunk is padded on the
/// left, and a chunk past the end is all zeros.
pub open spec fn stream_chunk(raw: Seq<bool>, i: nat, b: nat) -> Seq<bool> {
    let lo = if i * b <= raw.len() { i * b } else { raw.len() };
    let hi = if i * b + b <= raw.len() { i * b + b } else { raw.len() };
    normalize_spec(raw.subrange(lo as int, hi as int), b)
}

/// Number of glyphs a stream fills: `count`, else enough for every bit (at least one).
pub open spec fn stream_count(raw_len: nat, b: nat, count: Option<usize>) -> nat {
    match count {
        Some(n) => n as nat,
        None => if raw_len == 0 { 1 } else { ((raw_len + b - 1) as nat / b) as nat },
    }
}

/// Glyphs of a continuous bit stream.
pub open spec fn stream_spec(p: GlyphProfile, s: Seq<char>, count: Option<usize>) -> Result<Seq<GridView>> {
    let raw = bits_of_str(s);
    let n = stream_count(raw.len(), p.bpg(), count);
    if !bit_chars_ok(s) {
        Err(bit_string_error(s))
    } else if count == Some(0usize) {
        Err(GlyphixError::EmptyGlyphSequence)
    } else if n > p.max_glyphs {
        Err(GlyphixError::GlyphCountExceeded { count: n as usize, cap: p.max_glyphs })
    } else {
        Ok(Seq::new(n, |i: int| grid_of_notation(p, stream_chunk(raw, i as nat, p.bpg()))))
    }
}

/// Glyphs of a bit string under a splitting mode.
pub open spec fn sequence_spec(p: GlyphProfile, s: Seq<char>, count: Option<usize>, mode: BitSequenceMode) -> Result<Seq<GridView>> {
    let comma = match mode {
        BitSequenceMode::Auto => s.contains(','),
        BitSequenceMode::Stream => false,
        BitSequenceMode::CommaSeparated => true,
    };
    if comma {
        comma_spec(p, s, count)
    } else {
        stream_spec(p, s, count)
    }
}

/// Split `s` at each comma.
pub(crate) fn split_commas(s: &str) -> (parts: Vec<&str>)
    ensures
        parts@.map_values(|t: &str| t@) == comma_fields(s@),
{
    let n = s.unicode_len();
    let mut parts: Vec<&str> = Vec::new();
    let mut start: usize = 0;
    let mut i: usize = 0;
    assert(s@.take(0) =~= Seq::<char>::empty());
    assert(parts@.map_values(|t: &str| t@).push(s@.subrange(0, 0)) =~= comma_fields(s@.take(0)));
    while i < n
        invariant
            n == s@.len(),
            start <= i <= n,
            parts@.map_values(|t: &str| t@).push(s@.subrange(start as int, i as int)) == comma_fields(s@.take(i as int)),
        decreases n - i,
    {
        let ch = s.get_char(i);
        let ghost before = parts@.map_values(|t: &str| t@);
        let ghost old_start = start as int;
        assert(s@.take(i + 1).drop_last() =~= s@.take(i as int));
        assert(s@.take(i + 1).last() == ch);
        if ch == ',' {
            let part = s.substring_char(start, i);
            parts.push(part);
            i = i + 1;
            start = i;
            assert(parts@.map_values(|t: &str| t@) =~= before.push(part@));
            assert(part@ == s@.subrange(old_start, i - 1));
            assert(s@.subrange(start as int, i as int) =~= Seq::<char>::empty());
            assert(parts@.map_values(|t: &str| t@).push(s@.subrange(start as int, i as int))
                =~= comma_fields(s@.take(i as int)));
        } else {
            i = i + 1;
            assert(s@.subrange(start as int, i as int) =~= s@.subrange(start as int, i - 1).push(ch));
            assert(parts@.map_values(|t: &str| t@).push(s@.subrange(start as int, i as int))
                =~= comma_fields(s@.take(i as int)));
        }
    }
    let last = s.substring_char(start, n);
    let ghost before = parts@.map_values(|t: &str| t@);
    parts.push(last);
    assert(parts@.map_values(|t: &str| t@) =~= before.push(last@));
    assert(s@.take(n as int) =~= s@);
    parts
}

/// Whether `s` contains a comma.
fn has_comma(s: &str) -> (b: bool)
    ensures
        b == s@.contains(','),
{
    let n = s.unicode_len();
    let mut i: usize = 0;
    while i < n
        invariant
            n == s@.len(),
            i <= n,
            forall|j: int| 0 <= j < i ==> s@[j] != ',',
        decreases n - i,
    {
        if s.get_char(i) == ',' {
            return true;
        }
        i = i + 1;
    }
    false
}

/// Paint a horizontal sequence of glyphs from a bit string (mode [`BitSequenceMode::Auto`]).
///
/// Comma-separated fields (`1, 11, 101`) paint one glyph each, with the rules of
/// [`paint_bit_string`]; an empty field is an all-black glyph. A string without
/// commas is a continuous stream cut into `bits_per_glyph` chunks, left to right;
/// a short final chunk is left-padded with zeros. `glyph_count` forces the number
/// of glyphs (padding with blank glyphs, or dropping extra ones).
pub fn paint_bit_string_sequence(profile: &GlyphProfile, bit_str: &str, glyph_count: Option<usize>) -> (r: Result<Vec<Grid>>)
    requires
        profile.wf(),
    ensures
        glyphs_agree(r, sequence_spec(*profile, bit_str@, glyph_count, BitSequenceMode::Auto)),
{
    paint_bit_string_sequence_with(profile, bit_str, glyph_count, BitSequenceMode::Auto)
}

/// [`paint_bit_string_sequence`] with an explicit [`BitSequenceMode`].
pub fn paint_bit_string_sequence_with(
    profile: &GlyphProfile,
    bit_str: &str,
    glyph_count: Option<usize>,
    mode: BitSequenceMode,
) -> (r: Result<Vec<Grid>>)
    requires
        profile.wf(),
    ensures
        glyphs_agree(r, sequence_spec(*profile, bit_str@, glyph_count, mode)),
{
    proof {
        profile.lemma_wf();
    }
    let bpg = profile.bits_per_glyph();
    if bpg == 0 {
        return Err(GlyphixError::InvalidProfile("bits_per_glyph is 0".to_string()));
    }
    let comma = match mode {
        BitSequenceMode::Auto => has_comma(bit_str),
        BitSequenceMode::Stream => false,
        BitSequenceMode::CommaSeparated => true,
    };
    if comma {
        paint_bit_string_comma(profile, bit_str, glyph_count)
    } else {
        paint_bit_string_stream(profile, bit_str, glyph_count)
    }
}

fn paint_bit_string_comma(profile: &GlyphProfile, bit_str: &str, glyph_count: Option<usize>) -> (r: Result<Vec<Grid>>)
    requires
        profile.wf(),
    ensures
        glyphs_agree(r, comma_spec(*profile, bit_str@, glyph_count)),
{
    let parts = split_commas(bit_str);
    let ghost fs = comma_fields(bit_str@);
    let ghost gs = fs.map_values(|f: Seq<char>| field_glyph(*profile, f));
    proof {
        lemma_comma_fields_nonempty(bit_str@);
        assert(parts@.len() == fs.len());
    }
    if parts.len() == 0 {
        return Err(GlyphixError::EmptyGlyphSequence);
    }
    let mut glyphs: Vec<Grid> = Vec::new();
    let mut j: usize = 0;
    while j < parts.len()
        invariant
            profile.wf(),
            fs == comma_fields(bit_str@),
            gs == fs.map_values(|f: Seq<char>| field_glyph(*profile, f)),
            parts@.map_values(|t: &str| t@) == fs,
            j <= parts@.len(),
            forall|i: int| 0 <= i < j ==> bit_chars_ok(trim_spec(#[trigger] fs[i])),
            views(glyphs@) == gs.take(j as int),
            forall|i: int| 0 <= i < glyphs@.len() ==> (#[trigger] glyphs@[i])@.wf(),
        decreases parts@.len() - j,
    {
        let part = trim(parts[j]);
        proof {
            assert(parts@[j as int]@ == fs[j as int]);
        }
        let g = match paint_bit_string(profile, part) {
            Ok(g) => g,
            Err(e) => {
                proof {
                    assert(!bit_chars_ok(trim_spec(fs[j as int])));
                    assert(!fields_ok(fs));
                    let k = first_bad_field(fs);
                    if k < j {
                        assert(bit_chars_ok(trim_spec(fs[k])));
                    }
                    if k > j {
                        assert(bit_chars_ok(trim_spec(fs[j as int])));
                    }
                    assert(k == j);
                }
                return Err(e);
            },
        };
        let ghost before = views(glyphs@);
        glyphs.push(g);
        proof {
            assert(views(glyphs@) =~= before.push(g@));
            assert(gs.take(j + 1) =~= gs.take(j as int).push(gs[j as int]));
        }
        j = j + 1;
    }
    proof {
        assert(fields_ok(fs));
        assert(gs.take(parts@.len() as int) =~= gs);
    }
    match glyph_count {
        Some(n) => {
            if n == 0 {
                return Err(GlyphixError::EmptyGlyphSequence);
            }
            if n > profile.max_glyphs {
                return Err(GlyphixError::GlyphCountExceeded { count: n, cap: profile.max_glyphs });
            }
            if glyphs.len() > n {
                glyphs.truncate(n);
                proof {
                    assert(views(glyphs@) =~= fit_count(*profile, gs, n as nat));
                }
            } else {
                while glyphs.len() < n
                    invariant
                        profile.wf(),
                        gs.len() <= glyphs@.len() <= n,
                        forall|i: int| 0 <= i < glyphs@.len() ==> views(glyphs@)[i] == fit_count(*profile, gs, n as nat)[i],
                    decreases n - glyphs@.len(),
                {
                    let ghost before = views(glyphs@);
                    glyphs.push(Grid::from_profile(profile));
                    proof {
                        assert(views(glyphs@) =~= before.push(glyphs@.last()@));
                    }
                }
                proof {
                    assert(views(glyphs@) =~= fit_count(*profile, gs, n as nat));
                }
            }
        },
        None => {
            if glyphs.len() > profile.max_glyphs {
                return Err(GlyphixError::GlyphCountExceeded { count: glyphs.len(), cap: profile.max_glyphs });
            }
        },
    }
    Ok(glyphs)
}

fn paint_bit_string_stream(profile: &GlyphProfile, bit_str: &str, glyph_count: Option<usize>) -> (r: Result<Vec<Grid>>)
    requires
        profile.wf(),
    ensures
        glyphs_agree(r, stream_spec(*profile, bit_str@, glyph_count)),
{
    proof {
        profile.lemma_wf();
    }
    let bpg = profile.bits_per_glyph();
    let raw = parse_bit_string(bit_str)?;
    let len = raw.len();
    let n = match glyph_count {
        Some(n) => {
            if n == 0 {
                return Err(GlyphixError::EmptyGlyphSequence);
            }
            n
        },
        None => {
            if len == 0 {
                1
            } else {
                (len - 1) / bpg + 1
            }
        },
    };
    proof {
        if glyph_count is None && len > 0 {
            profile.lemma_wf();
            let b = bpg as int;
            assert(b > 0);
            let m = len + b - 1;
            lemma_fundamental_div_mod(len - 1, b);
            let q1 = (len - 1) / b;
            let r1 = (len - 1) % b;
            assert(0 <= r1 < b);
            assert(m == (q1 + 1) * b + r1) by (nonlinear_arith)
                requires
                    len - 1 == b * q1 + r1,
                    m == len + b - 1,
            ;
            lemma_fundamental_div_mod_converse(m, b, q1 + 1, r1);
        }
        assert(n == stream_count(raw@.len(), bpg as nat, glyph_count));
    }
    if n > profile.max_glyphs {
        return Err(GlyphixError::GlyphCountExceeded { count: n, cap: profile.max_glyphs });
    }
    let ghost target = Seq::new(n as nat, |i: int| grid_of_notation(*profile, stream_chunk(raw@, i as nat, bpg as nat)));
    let mut glyphs: Vec<Grid> = Vec::new();
    let mut pos: usize = 0;
    let mut i: usize = 0;
    while i < n
        invariant
            profile.wf(),
            bpg == profile.bpg(),
            bpg >= 1,
            len == raw@.len(),
            target == Seq::new(n as nat, |i: int| grid_of_notation(*profile, stream_chunk(raw@, i as nat, bpg as nat))),
            i <= n,
            pos == if i * bpg <= len { i * bpg } else { len as int },
            views(glyphs@) == target.take(i as int),
            forall|k: int| 0 <= k < glyphs@.len() ==> (#[trigger] glyphs@[k])@.wf(),
        decreases n - i,
    {
        let hi = if len - pos >= bpg { pos + bpg } else { len };
        proof {
            assert((i + 1) * bpg == i * bpg + bpg) by (nonlinear_arith);
            assert(hi == if i * bpg + bpg <= len { i * bpg + bpg } else { len as int });
        }
        let chunk = normalize_bit_string(&raw.as_slice()[pos..hi], bpg);
        proof {
            assert(chunk@ == stream_chunk(raw@, i as nat, bpg as nat));
        }
        let g = paint_normalized_bits(profile, chunk.as_slice())?;
        let ghost before = views(glyphs@);
        glyphs.push(g);
        proof {
            assert(views(glyphs@) =~= before.push(g@));
            assert(target.take(i + 1) =~= target.take(i as int).push(target[i as int]));
        }
        pos = hi;
        i = i + 1;
    }
    proof {
        assert(target.take(n as int) =~= target);
    }
    Ok(glyphs)
}

/// A glyph whose cells are all below `2^bpc` passes the profile check.
proof fn lemma_digits_pass_check(p: GlyphProfile, g: GridView)
    requires
        p.wf(),
        g.width == p.width,
        g.height == p.height,
        forall|i: int| 0 <= i < g.cells.len() ==> g.cells[i] < pow2(p.bpc()),
    ensures
        profile_check(g, p) is Ok,
{
    p.lemma_wf();
    lemma_palette_check_ok(g.cells, p.palette_size);
}

/// A value painted onto a glyph passes the profile check, and the glyph's value
/// is the value: `value_u128` of what `paint_value_u128` paints gives it back.
pub proof fn lemma_painted_value_reads_back(p: GlyphProfile, v: nat)
    requires
        p.wf(),
        v < pow2(p.bpg()),
    ensures
        profile_check(grid_of_value(p, v), p) is Ok,
        value_of_grid(p, grid_of_value(p, v)) == v,
{
    p.lemma_wf();
    let k = p.bpc();
    let n = p.cells();
    let g = grid_of_value(p, v);
    lemma_pow2_pos(k);
    vstd::bits::lemma_u32_pow2_no_overflow(k);
    assert forall|i: int| 0 <= i < g.cells.len() implies g.cells[i] < pow2(k) by {
        let d = place_digit(v, k, (n - 1 - i) as nat);
        assert(d < pow2(k));
    }
    lemma_digits_pass_check(p, g);
    lemma_value_roundtrip(p, v);
}

/// A glyph painted from exactly `bits_per_glyph` bits passes the profile check,
/// and its bit string is those bits: `grid_to_bit_string` of what
/// `paint_normalized_bits` paints writes them back.
pub proof fn lemma_painted_bits_read_back(p: GlyphProfile, bits: Seq<bool>)
    requires
        p.wf(),
        bits.len() == p.bpg(),
    ensures
        profile_check(grid_of_notation(p, bits), p) is Ok,
        notation_of_grid(p, grid_of_notation(p, bits)) == bits,
{
    p.lemma_wf();
    let k = p.bpc();
    let n = p.cells();
    let g = grid_of_notation(p, bits);
    vstd::bits::lemma_u32_pow2_no_overflow(k);
    assert forall|i: int| 0 <= i < g.cells.len() implies g.cells[i] < pow2(k) by {
        lemma_digit_window(n as int, k as int, i);
        let w = bits.subrange(i * k, i * k + k);
        lemma_bits_value_bound(w);
    }
    lemma_digits_pass_check(p, g);
    lemma_notation_roundtrip(p, bits);
}

/// A glyph packed from a stream window passes the profile check, and unpacking
/// it gives the window back: `unpack_glyph` of what `pack_glyph` packs appends
/// exactly the packed bits.
pub proof fn lemma_packed_glyph_unpacks(p: GlyphProfile, chunk: Seq<bool>)
    requires
        p.wf(),
        chunk.len() == p.bpg(),
    ensures
        profile_check(glyph_from_stream(p, chunk), p) is Ok,
        stream_of_glyph(p, glyph_from_stream(p, chunk)) == chunk,
{
    p.lemma_wf();
    let k = p.bpc();
    let n = p.cells();
    let g = glyph_from_stream(p, chunk);
    vstd::bits::lemma_u32_pow2_no_overflow(k);
    assert forall|i: int| 0 <= i < g.cells.len() implies g.cells[i] < pow2(k) by {
        lemma_digit_window(n as int, k as int, n - 1 - i);
        let w = chunk.subrange((n - 1 - i) * k, (n - 1 - i) * k + k);
        lemma_bits_value_bound(w);
    }
    lemma_digits_pass_check(p, g);
    lemma_stream_roundtrip(p, chunk);
}

/// With a glyph count `n`, comma mode gives exactly `n` glyphs: the glyph of each
/// of the first `n` fields in order, then all-zero glyphs for counts past the
/// last field.
pub proof fn lemma_comma_count(p: GlyphProfile, s: Seq<char>, n: usize)
    ensures
        comma_spec(p, s, Some(n)) matches Ok(gs) ==> {
            let fs = comma_fields(s);
            &&& gs.len() == n
            &&& forall|i: int| 0 <= i < n && i < fs.len() ==> #[trigger] gs[i] == field_glyph(p, fs[i])
            &&& forall|i: int| fs.len() <= i < n ==> {
                &&& (#[trigger] gs[i]).width == p.width
                &&& gs[i].height == p.height
                &&& gs[i].cells.len() == p.cells()
                &&& forall|j: int| 0 <= j < gs[i].cells.len() ==> gs[i].cells[j] == 0
            }
        },
{
    if let Ok(gs) = comma_spec(p, s, Some(n)) {
        let fs = comma_fields(s);
        assert forall|i: int| fs.len() <= i < n implies {
            &&& (#[trigger] gs[i]).width == p.width
            &&& gs[i].height == p.height
            &&& gs[i].cells.len() == p.cells()
            &&& forall|j: int| 0 <= j < gs[i].cells.len() ==> gs[i].cells[j] == 0
        } by {
            assert(gs[i] == GridView::zeros(p.width, p.height));
        }
    }
}

} // verus!
