//! Mathematical model of bit sequences: MSB-first digits, bytes as 8-bit digits,
//! and the lemmas that tie them together.

use vstd::prelude::*;
use vstd::arithmetic::power2::{pow2, lemma_pow2_unfold, lemma_pow2_pos, lemma2_to64};
use vstd::arithmetic::div_mod::{
    lemma_mod_breakdown, lemma_div_denominator, lemma_fundamental_div_mod_converse,
    lemma_fundamental_div_mod,
};

verus! {

/// The `k` low bits of `v`, most significant first.
pub open spec fn bits_msb(v: nat, k: nat) -> Seq<bool>
    decreases k,
{
    if k == 0 {
        Seq::empty()
    } else {
        bits_msb(v / 2, (k - 1) as nat).push(v % 2 == 1)
    }
}

/// The number written by a bit sequence, most significant bit first.
pub open spec fn bits_value(s: Seq<bool>) -> nat
    decreases s.len(),
{
    if s.len() == 0 {
        0
    } else {
        2 * bits_value(s.drop_last()) + (if s.last() { 1nat } else { 0nat })
    }
}

/// Bytes expanded to bits, MSB-first within each byte.
pub open spec fn bytes_to_bits_spec(bytes: Seq<u8>) -> Seq<bool> {
    Seq::new(8 * bytes.len(), |j: int| bits_msb(bytes[j / 8] as nat, 8)[j % 8])
}

/// Number of bytes needed for `n` bits.
pub open spec fn ceil8(n: nat) -> nat {
    ((n + 7) / 8) as nat
}

/// The `i`-th byte packed from a bit sequence; a short final chunk is padded with
/// zero bits on its low side.
pub open spec fn chunk_byte(bits: Seq<bool>, i: int) -> u8 {
    let lo = 8 * i;
    let hi = if 8 * i + 8 <= bits.len() { 8 * i + 8 } else { bits.len() as int };
    let chunk = bits.subrange(lo, hi);
    (bits_value(chunk) * pow2((8 - chunk.len()) as nat)) as u8
}

/// Bits packed into bytes, MSB-first.
pub open spec fn bits_to_bytes_spec(bits: Seq<bool>) -> Seq<u8> {
    Seq::new(ceil8(bits.len()), |i: int| chunk_byte(bits, i))
}

pub proof fn lemma_bits_msb_len(v: nat, k: nat)
    ensures
        bits_msb(v, k).len() == k,
    decreases k,
{
    if k > 0 {
        lemma_bits_msb_len(v / 2, (k - 1) as nat);
    }
}

pub proof fn lemma_bits_value_bound(s: Seq<bool>)
    ensures
        bits_value(s) < pow2(s.len()),
    decreases s.len(),
{
    if s.len() == 0 {
        lemma2_to64();
    } else {
        lemma_bits_value_bound(s.drop_last());
        lemma_pow2_unfold(s.len());
    }
}

/// Reading back the bits of `v` gives `v` modulo `2^k`.
pub proof fn lemma_value_of_bits_msb(v: nat, k: nat)
    ensures
        bits_value(bits_msb(v, k)) == v % pow2(k),
    decreases k,
{
    if k == 0 {
        lemma2_to64();
    } else {
        let s = bits_msb(v, k);
        lemma_bits_msb_len(v / 2, (k - 1) as nat);
        assert(s.drop_last() =~= bits_msb(v / 2, (k - 1) as nat));
        lemma_value_of_bits_msb(v / 2, (k - 1) as nat);
        lemma_pow2_unfold(k);
        lemma_pow2_pos((k - 1) as nat);
        lemma_mod_breakdown(v as int, 2, pow2((k - 1) as nat) as int);
    }
}

/// Writing the value of a bit sequence back with its own width gives it back.
pub proof fn lemma_bits_msb_of_value(s: Seq<bool>)
    ensures
        bits_msb(bits_value(s), s.len()) == s,
    decreases s.len(),
{
    if s.len() > 0 {
        let p = s.drop_last();
        lemma_bits_msb_of_value(p);
        let v = bits_value(s);
        let b: nat = if s.last() { 1 } else { 0 };
        assert(v == 2 * bits_value(p) + b);
        lemma_fundamental_div_mod_converse(v as int, 2, bits_value(p) as int, b as int);
        assert(v / 2 == bits_value(p));
        assert(s =~= p.push(s.last()));
    }
}

/// Element `j` of `bits_msb(v, k)` is bit `k - 1 - j` of `v`.
pub proof fn lemma_bits_msb_index(v: nat, k: nat, j: int)
    requires
        0 <= j < k,
    ensures
        bits_msb(v, k)[j] == ((v / pow2((k - 1 - j) as nat)) % 2 == 1),
    decreases k,
{
    lemma_bits_msb_len(v / 2, (k - 1) as nat);
    if j == k - 1 {
        lemma2_to64();
        assert((k - 1 - j) as nat == 0);
        assert(v / pow2(0) == v);
        assert(bits_msb(v, k)[j] == (v % 2 == 1));
    } else {
        lemma_bits_msb_index(v / 2, (k - 1) as nat, j);
        let e = (k - 2 - j) as nat;
        assert(bits_msb(v, k)[j] == bits_msb(v / 2, (k - 1) as nat)[j]);
        assert(((k - 1) - 1 - j) as nat == e);
        lemma_pow2_pos(e);
        lemma_div_denominator(v as int, 2, pow2(e) as int);
        lemma_pow2_unfold(e + 1);
        assert((k - 1 - j) as nat == e + 1);
        assert(pow2(e + 1) == 2 * pow2(e));
        assert((v / 2) / pow2(e) == v / pow2(e + 1));
    }
}

pub proof fn lemma_bits_value_push(s: Seq<bool>, b: bool)
    ensures
        bits_value(s.push(b)) == 2 * bits_value(s) + (if b { 1nat } else { 0nat }),
{
    assert(s.push(b).drop_last() =~= s);
}

/// Value of a concatenation.
pub proof fn lemma_bits_value_concat(a: Seq<bool>, b: Seq<bool>)
    ensures
        bits_value(a + b) == bits_value(a) * pow2(b.len()) + bits_value(b),
    decreases b.len(),
{
    if b.len() == 0 {
        assert(a + b =~= a);
        lemma2_to64();
        assert(bits_value(a) * pow2(0) == bits_value(a));
    } else {
        let bp = b.drop_last();
        lemma_bits_value_concat(a, bp);
        assert((a + b).drop_last() =~= a + bp);
        lemma_pow2_unfold(b.len());
        let x = bits_value(a);
        let p = pow2(bp.len());
        assert(2 * (x * p) == x * (2 * p)) by (nonlinear_arith);
        assert((a + b).last() == b.last());
        let lb: nat = if b.last() { 1 } else { 0 };
        assert(bits_value(a + b) == 2 * bits_value(a + bp) + lb);
        assert(bits_value(b) == 2 * bits_value(bp) + lb);
        assert(pow2(b.len()) == 2 * p);
        assert(bits_value(a + b) == x * pow2(b.len()) + bits_value(b));
    }
}

/// A byte expands to its eight bits.
pub proof fn lemma_byte_roundtrip(b: u8)
    ensures
        bits_msb(b as nat, 8).len() == 8,
        bits_value(bits_msb(b as nat, 8)) == b,
{
    lemma_bits_msb_len(b as nat, 8);
    lemma_value_of_bits_msb(b as nat, 8);
    lemma2_to64();
}

pub proof fn lemma_div_mod8(i: int, j: int)
    requires
        0 <= j < 8,
    ensures
        (8 * i + j) / 8 == i,
        (8 * i + j) % 8 == j,
{
    lemma_fundamental_div_mod_converse(8 * i + j, 8, i, j);
}

/// Packing the bits of whole bytes gives the bytes back.
pub proof fn lemma_bytes_bits_roundtrip(bytes: Seq<u8>)
    ensures
        bits_to_bytes_spec(bytes_to_bits_spec(bytes)) == bytes,
{
    let bits = bytes_to_bits_spec(bytes);
    let out = bits_to_bytes_spec(bits);
    assert(ceil8(bits.len()) == bytes.len()) by {
        lemma_fundamental_div_mod_converse((8 * bytes.len() + 7) as int, 8, bytes.len() as int, 7);
    }
    assert forall|i: int| 0 <= i < bytes.len() implies out[i] == bytes[i] by {
        let chunk = bits.subrange(8 * i, 8 * i + 8);
        lemma_bits_msb_len(bytes[i] as nat, 8);
        assert forall|j: int| 0 <= j < 8 implies chunk[j] == bits_msb(bytes[i] as nat, 8)[j] by {
            lemma_div_mod8(i, j);
        }
        assert(chunk =~= bits_msb(bytes[i] as nat, 8));
        lemma_byte_roundtrip(bytes[i]);
        lemma2_to64();
        assert(8 * i + 8 <= bits.len());
        assert(chunk.len() == 8);
        assert(bits_value(chunk) == bytes[i]);
        assert(pow2((8 - chunk.len()) as nat) == 1);
        assert(chunk_byte(bits, i) == (bits_value(chunk) * pow2((8 - chunk.len()) as nat)) as u8);
        assert(bits_value(chunk) * pow2((8 - chunk.len()) as nat) == bytes[i] as nat);
        assert(out[i] == chunk_byte(bits, i));
    }
    assert(out =~= bytes);
}

/// A window of whole bytes in the expanded bits is the expansion of the byte window.
pub proof fn lemma_bytes_bits_window(bytes: Seq<u8>, a: int, c: int)
    requires
        0 <= a <= c <= bytes.len(),
    ensures
        bytes_to_bits_spec(bytes).subrange(8 * a, 8 * c) == bytes_to_bits_spec(bytes.subrange(a, c)),
{
    let l = bytes_to_bits_spec(bytes).subrange(8 * a, 8 * c);
    let r = bytes_to_bits_spec(bytes.subrange(a, c));
    assert forall|j: int| 0 <= j < 8 * (c - a) implies l[j] == r[j] by {
        let q = j / 8;
        let m = j % 8;
        lemma_fundamental_div_mod(j, 8);
        lemma_div_mod8(a + q, m);
        assert(8 * a + j == 8 * (a + q) + m);
    }
    assert(l =~= r);
}

/// Bits of a byte window, read back through any longer bit sequence that starts
/// with the expanded bytes.
pub proof fn lemma_decode_bytes_window(bytes: Seq<u8>, tail: Seq<bool>, a: int, c: int)
    requires
        0 <= a <= c <= bytes.len(),
    ensures
        bits_to_bytes_spec((bytes_to_bits_spec(bytes) + tail).subrange(8 * a, 8 * c))
            == bytes.subrange(a, c),
{
    let full = bytes_to_bits_spec(bytes) + tail;
    assert(full.subrange(8 * a, 8 * c) =~= bytes_to_bits_spec(bytes).subrange(8 * a, 8 * c));
    lemma_bytes_bits_window(bytes, a, c);
    lemma_bytes_bits_roundtrip(bytes.subrange(a, c));
}

/// Whole bytes of bits.
pub proof fn lemma_ceil8_exact(k: nat)
    ensures
        ceil8(8 * k) == k,
{
    lemma_fundamental_div_mod_converse((8 * k + 7) as int, 8, k as int, 7);
}

/// `m` zero bits.
pub open spec fn zero_pad(m: nat) -> Seq<bool> {
    Seq::new(m, |i: int| false)
}

proof fn lemma_zero_pad_value(m: nat)
    ensures
        bits_value(zero_pad(m)) == 0,
    decreases m,
{
    if m > 0 {
        assert(zero_pad(m).drop_last() =~= zero_pad((m - 1) as nat));
        lemma_zero_pad_value((m - 1) as nat);
    }
}

/// Packing bits into bytes and expanding the bytes again gives the bits followed
/// by zero bits up to a whole number of bytes.
pub proof fn lemma_bits_bytes_roundtrip(bits: Seq<bool>)
    ensures
        bits_to_bytes_spec(bits).len() == ceil8(bits.len()),
        bytes_to_bits_spec(bits_to_bytes_spec(bits)) == bits + zero_pad((8 * ceil8(bits.len()) - bits.len()) as nat),
{
    let n = bits.len();
    let c = ceil8(n);
    lemma_fundamental_div_mod((n + 7) as int, 8);
    assert(8 * c <= n + 7 && n <= 8 * c);
    let bytes = bits_to_bytes_spec(bits);
    let out = bytes_to_bits_spec(bytes);
    let want = bits + zero_pad((8 * c - n) as nat);
    lemma2_to64();
    assert forall|j: int| 0 <= j < 8 * c implies out[j] == want[j] by {
        lemma_fundamental_div_mod(j, 8);
        let i = j / 8;
        let r = j % 8;
        assert(j == 8 * i + r && 0 <= r < 8);
        assert(0 <= i < c);
        assert(8 * i < n);
        let hi = if 8 * i + 8 <= n { 8 * i + 8 } else { n as int };
        let chunk = bits.subrange(8 * i, hi);
        let z = zero_pad((8 - chunk.len()) as nat);
        let s = chunk + z;
        assert(s.len() == 8);
        lemma_bits_value_concat(chunk, z);
        lemma_zero_pad_value(z.len());
        lemma_bits_value_bound(s);
        assert(bits_value(s) == bits_value(chunk) * pow2(z.len()));
        assert(bytes[i] == bits_value(s));
        lemma_bits_msb_of_value(s);
        lemma_div_mod8(i, r);
        assert(out[j] == bits_msb(bytes[i] as nat, 8)[r]);
        assert(out[j] == s[r]);
        if j < n {
            assert(r < chunk.len());
            assert(s[r] == bits[j]);
        } else {
            assert(r >= chunk.len());
        }
    }
    assert(out =~= want);
}

} // verus!
