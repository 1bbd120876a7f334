//! Command-line notations: comma-separated glyph counts, and raw bytes shown as
//! lower-case hexadecimal when they are not text.

use vstd::prelude::*;
use crate::pack::{comma_fields, split_commas};
use crate::strings::{all_digits, digits_value, lemma_digits_value_monotone, trim, trim_spec};

verus! {

/// `usize` parsing as by `str::parse::<usize>`: an optional `+`, then one or
/// more decimal digits whose value fits.
pub open spec fn parse_usize_spec(s: Seq<char>) -> Option<usize> {
    let d = if s.len() > 0 && s[0] == '+' { s.drop_first() } else { s };
    if d.len() > 0 && all_digits(d) && digits_value(d) <= usize::MAX {
        Some(digits_value(d) as usize)
    } else {
        None
    }
}

/// Counts of a comma-separated list: each field, trimmed, is a count.
pub open spec fn counts_spec(s: Seq<char>) -> Option<Seq<usize>> {
    let fs = comma_fields(s);
    if forall|i: int| 0 <= i < fs.len() ==> (#[trigger] parse_usize_spec(trim_spec(fs[i]))) is Some {
        Some(Seq::new(fs.len(), |i: int| parse_usize_spec(trim_spec(fs[i]))->Some_0))
    } else {
        None
    }
}

/// Parse an unsigned count as by `str::parse::<usize>`.
pub fn parse_usize(s: &str) -> (r: Option<usize>)
    ensures
        r == parse_usize_spec(s@),
{
    let n = s.unicode_len();
    let mut i: usize = 0;
    if n > 0 && s.get_char(0) == '+' {
        i = 1;
    }
    let ghost d = if s@.len() > 0 && s@[0] == '+' { s@.drop_first() } else { s@ };
    assert(d =~= s@.skip(i as int));
    if i >= n {
        return None;
    }
    let start = i;
    let mut v: usize = 0;
    while i < n
        invariant
            n == s@.len(),
            start <= i <= n,
            start < n,
            d == s@.skip(start as int),
            d == (if s@.len() > 0 && s@[0] == '+' { s@.drop_first() } else { s@ }),
            all_digits(s@.subrange(start as int, i as int)),
            v == digits_value(s@.subrange(start as int, i as int)),
        decreases n - i,
    {
        let c = s.get_char(i);
        if c < '0' || c > '9' {
            assert(d[i - start] == c);
            return None;
        }
        let dv = ((c as u32) - 48) as usize;
        let ghost pre = s@.subrange(start as int, i as int);
        assert(s@.subrange(start as int, i + 1).drop_last() =~= pre);
        let next = match v.checked_mul(10) {
            Some(t) => t.checked_add(dv),
            None => None,
        };
        match next {
            Some(t) => {
                v = t;
            },
            None => {
                proof {
                    assert(d.take((i + 1 - start) as int) =~= s@.subrange(start as int, i + 1));
                    if all_digits(d) {
                        lemma_digits_value_monotone(d, (i + 1 - start) as nat);
                    }
                }
                return None;
            },
        }
        i = i + 1;
    }
    assert(s@.subrange(start as int, i as int) =~= d);
    Some(v)
}

/// Glyph counts from a comma-separated list such as `1,4,10`; `None` when a
/// field is not a count.
pub fn parse_glyph_counts(s: &str) -> (r: Option<Vec<usize>>)
    ensures
        r is Some <==> counts_spec(s@) is Some,
        r matches Some(v) ==> v@ == counts_spec(s@)->Some_0,
{
    let parts = split_commas(s);
    let ghost fs = comma_fields(s@);
    assert(parts@.len() == fs.len()) by {
        assert(parts@.map_values(|t: &str| t@).len() == parts@.len());
    }
    let mut out: Vec<usize> = Vec::new();
    let mut i: usize = 0;
    while i < parts.len()
        invariant
            fs == comma_fields(s@),
            parts@.map_values(|t: &str| t@) == fs,
            parts@.len() == fs.len(),
            i <= parts@.len(),
            out@.len() == i,
            forall|j: int| 0 <= j < i ==> (#[trigger] parse_usize_spec(trim_spec(fs[j]))) is Some,
            forall|j: int| 0 <= j < i ==> out@[j] == parse_usize_spec(trim_spec(fs[j]))->Some_0,
        decreases parts@.len() - i,
    {
        assert(parts@.map_values(|t: &str| t@)[i as int] == parts@[i as int]@);
        match parse_usize(trim(parts[i])) {
            Some(c) => {
                out.push(c);
            },
            None => {
                assert(parse_usize_spec(trim_spec(fs[i as int])) is None);
                return None;
            },
        }
        i = i + 1;
    }
    assert(out@ =~= counts_spec(s@)->Some_0);
    Some(out)
}

/// The lower-case hexadecimal digit of a value below sixteen.
pub open spec fn hex_digit(d: nat) -> char {
    if d < 10 {
        (48 + d) as char
    } else {
        (87 + d) as char
    }
}

/// Two lower-case hexadecimal digits per byte.
pub open spec fn hex_spec(bytes: Seq<u8>) -> Seq<char>
    decreases bytes.len(),
{
    if bytes.len() == 0 {
        Seq::empty()
    } else {
        hex_spec(bytes.drop_last()) + seq![hex_digit((bytes.last() / 16) as nat), hex_digit((bytes.last() % 16) as nat)]
    }
}

/// The one-character string of a lower-case hexadecimal digit.
fn hex_digit_str(d: u8) -> (s: &'static str)
    requires
        d < 16,
    ensures
        s@ == seq![hex_digit(d as nat)],
{
    proof {
        reveal_strlit("0");
        reveal_strlit("1");
        reveal_strlit("2");
        reveal_strlit("3");
        reveal_strlit("4");
        reveal_strlit("5");
        reveal_strlit("6");
        reveal_strlit("7");
        reveal_strlit("8");
        reveal_strlit("9");
        reveal_strlit("a");
        reveal_strlit("b");
        reveal_strlit("c");
        reveal_strlit("d");
        reveal_strlit("e");
        reveal_strlit("f");
    }
    let s = match d {
        0 => "0",
        1 => "1",
        2 => "2",
        3 => "3",
        4 => "4",
        5 => "5",
        6 => "6",
        7 => "7",
        8 => "8",
        9 => "9",
        10 => "a",
        11 => "b",
        12 => "c",
        13 => "d",
        14 => "e",
        _ => "f",
    };
    assert(s@ =~= seq![hex_digit(d as nat)]);
    s
}

/// Bytes as lower-case hexadecimal, two digits each.
pub fn hex_fallback(bytes: &[u8]) -> (s: String)
    ensures
        s@ == hex_spec(bytes@),
{
    let mut out = String::new();
    let mut i: usize = 0;
    assert(bytes@.take(0) =~= Seq::<u8>::empty());
    while i < bytes.len()
        invariant
            i <= bytes@.len(),
            out@ == hex_spec(bytes@.take(i as int)),
        decreases bytes@.len() - i,
    {
        let b = bytes[i];
        out.append(hex_digit_str(b / 16));
        out.append(hex_digit_str(b % 16));
        assert(bytes@.take(i + 1).drop_last() =~= bytes@.take(i as int));
        assert(out@ =~= hex_spec(bytes@.take(i + 1)));
        i = i + 1;
    }
    assert(bytes@.take(bytes@.len() as int) =~= bytes@);
    out
}

} // verus!
