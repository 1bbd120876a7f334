//! Exact text building blocks: decimal and hexadecimal numerals and padding.

use vstd::prelude::*;

verus! {

/// The ASCII character of a digit value below sixteen (upper-case hex letters).
pub open spec fn digit_char(d: nat) -> char {
    if d < 10 {
        (48 + d) as char
    } else {
        (55 + d) as char
    }
}

/// Decimal numeral of `n`, no leading zeros (`"0"` for zero).
pub open spec fn decimal(n: nat) -> Seq<char>
    decreases n,
{
    if n < 10 {
        seq![digit_char(n)]
    } else {
        decimal(n / 10) + seq![digit_char(n % 10)]
    }
}

/// Two upper-case hexadecimal digits of a byte.
pub open spec fn hex2(b: u8) -> Seq<char> {
    seq![digit_char((b / 16) as nat), digit_char((b % 16) as nat)]
}

/// `s` followed by enough spaces to make it `width` characters long.
pub open spec fn pad_right(s: Seq<char>, width: nat) -> Seq<char> {
    if s.len() >= width {
        s
    } else {
        s + Seq::new((width - s.len()) as nat, |i: int| ' ')
    }
}

/// The one-character string of a digit value below sixteen.
pub fn digit_str(d: u8) -> (s: &'static str)
    requires
        d < 16,
    ensures
        s@ == seq![digit_char(d as nat)],
{
    proof {
        reveal_strlit("0");
        reveal_strlit("1");
        reveal_strlit("2");
        reveal_strlit("3");
        reveal_strlit("4");
        reveal_strlit("5");
        reveal_strlit("6");
        reveal_strlit("7");
        reveal_strlit("8");
        reveal_strlit("9");
        reveal_strlit("A");
        reveal_strlit("B");
        reveal_strlit("C");
        reveal_strlit("D");
        reveal_strlit("E");
        reveal_strlit("F");
    }
    let s = match d {
        0 => "0",
        1 => "1",
        2 => "2",
        3 => "3",
        4 => "4",
        5 => "5",
        6 => "6",
        7 => "7",
        8 => "8",
        9 => "9",
        10 => "A",
        11 => "B",
        12 => "C",
        13 => "D",
        14 => "E",
        _ => "F",
    };
    assert(s@ =~= seq![digit_char(d as nat)]);
    s
}

/// Append the decimal numeral of `n`.
pub fn push_decimal(out: &mut String, n: u64)
    ensures
        final(out)@ == old(out)@ + decimal(n as nat),
    decreases n,
{
    if n >= 10 {
        push_decimal(out, n / 10);
    }
    let d = (n % 10) as u8;
    out.append(digit_str(d));
    assert(final(out)@ =~= old(out)@ + decimal(n as nat));
}

/// Append two upper-case hexadecimal digits of a byte.
pub fn push_hex2(out: &mut String, b: u8)
    ensures
        final(out)@ == old(out)@ + hex2(b),
{
    out.append(digit_str(b / 16));
    out.append(digit_str(b % 16));
    assert(final(out)@ =~= old(out)@ + hex2(b));
}

/// Number of characters of the decimal numeral of `n`.
pub fn decimal_len(n: u64) -> (len: u64)
    ensures
        len == decimal(n as nat).len(),
        1 <= len <= n + 1,
    decreases n,
{
    if n >= 10 {
        decimal_len(n / 10) + 1
    } else {
        1
    }
}

/// Append `width - written` spaces (none when `written` already reaches `width`).
pub fn push_padding(out: &mut String, written: u64, width: u64)
    ensures
        written >= width ==> final(out)@ == old(out)@,
        written < width ==> final(out)@ == old(out)@ + Seq::new((width - written) as nat, |i: int| ' '),
{
    proof {
        reveal_strlit(" ");
    }
    let mut k = written;
    while k < width
        invariant
            written <= width ==> written <= k <= width,
            written > width ==> k == written,
            k > written ==> out@ == old(out)@ + Seq::new((k - written) as nat, |i: int| ' '),
            k == written ==> out@ == old(out)@,
        decreases width - k,
    {
        proof {
            reveal_strlit(" ");
        }
        out.append(" ");
        assert(out@ =~= old(out)@ + Seq::new((k + 1 - written) as nat, |i: int| ' '));
        k = k + 1;
    }
}

} // verus!
