//! Character-level helpers for names and numerals: comparison, ASCII lower-casing,
//! Unicode whitespace trimming and unsigned decimal parsing.

use vstd::prelude::*;

verus! {

/// The text that std's `Debug` formatting (`{:?}`) writes for a character: the
/// character in single quotes, escaped as `char::escape_debug` escapes it.
pub uninterp spec fn char_debug_text(c: char) -> Seq<char>;

/// `format!("{c:?}")`, std's `Debug` for `char`. Its text is left to the name
/// `char_debug_text`, which depends on the character alone.
#[verifier::external_body]
pub(crate) fn char_debug(c: char) -> (s: String)
    ensures
        s@ == char_debug_text(c),
{
    format!("{c:?}")
}

/// ASCII lower-casing of one character (other characters unchanged).
pub open spec fn ascii_lower_char(c: char) -> char {
    if 'A' <= c && c <= 'Z' {
        ((c as u32) + 32) as char
    } else {
        c
    }
}

/// ASCII lower-casing of a string.
pub open spec fn ascii_lower(s: Seq<char>) -> Seq<char> {
    Seq::new(s.len(), |i: int| ascii_lower_char(s[i]))
}

/// The Unicode `White_Space` property.
pub open spec fn is_unicode_ws(c: char) -> bool {
    let u = c as u32;
    ||| 0x09 <= u <= 0x0d
    ||| u == 0x20
    ||| u == 0x85
    ||| u == 0xa0
    ||| u == 0x1680
    ||| 0x2000 <= u <= 0x200a
    ||| u == 0x2028
    ||| u == 0x2029
    ||| u == 0x202f
    ||| u == 0x205f
    ||| u == 0x3000
}

/// Index of the first non-whitespace character (length if none).
pub open spec fn first_non_ws(s: Seq<char>, from: int) -> int
    decreases s.len() - from,
{
    if from >= s.len() {
        s.len() as int
    } else if is_unicode_ws(s[from]) {
        first_non_ws(s, from + 1)
    } else {
        from
    }
}

/// One past the last non-whitespace character at or before `upto` (or `lo` if none).
pub open spec fn last_non_ws_end(s: Seq<char>, lo: int, upto: int) -> int
    decreases upto - lo,
{
    if upto <= lo {
        lo
    } else if is_unicode_ws(s[upto - 1]) {
        last_non_ws_end(s, lo, upto - 1)
    } else {
        upto
    }
}

/// `s` without leading and trailing Unicode whitespace.
pub open spec fn trim_spec(s: Seq<char>) -> Seq<char> {
    let lo = first_non_ws(s, 0);
    s.subrange(lo, last_non_ws_end(s, lo, s.len() as int))
}

/// Decimal value of a run of ASCII digits.
pub open spec fn digits_value(s: Seq<char>) -> nat
    decreases s.len(),
{
    if s.len() == 0 {
        0
    } else {
        10 * digits_value(s.drop_last()) + ((s.last() as u32) - 48) as nat
    }
}

/// Every character is an ASCII digit.
pub open spec fn all_digits(s: Seq<char>) -> bool {
    forall|i: int| 0 <= i < s.len() ==> '0' <= #[trigger] s[i] && s[i] <= '9'
}

/// `u8` parsing as by `str::parse::<u8>`: an optional `+`, then one or more
/// decimal digits whose value fits.
pub open spec fn parse_u8_spec(s: Seq<char>) -> Option<u8> {
    let d = if s.len() > 0 && s[0] == '+' { s.drop_first() } else { s };
    if d.len() > 0 && all_digits(d) && digits_value(d) <= 255 {
        Some(digits_value(d) as u8)
    } else {
        None
    }
}

/// Character-wise string equality.
pub fn str_is(a: &str, b: &str) -> (r: bool)
    ensures
        r == (a@ == b@),
{
    let n = a.unicode_len();
    if n != b.unicode_len() {
        return false;
    }
    let mut i: usize = 0;
    while i < n
        invariant
            n == a@.len(),
            n == b@.len(),
            i <= n,
            forall|j: int| 0 <= j < i ==> a@[j] == b@[j],
        decreases n - i,
    {
        if a.get_char(i) != b.get_char(i) {
            return false;
        }
        i = i + 1;
    }
    assert(a@ =~= b@);
    true
}

/// ASCII lower-casing of one character.
pub fn lower_char(c: char) -> (r: char)
    ensures
        r == ascii_lower_char(c),
{
    if 'A' <= c && c <= 'Z' {
        ((c as u8) + 32) as char
    } else {
        c
    }
}

/// The characters of `s`, ASCII lower-cased.
pub fn lower_chars(s: &str) -> (v: Vec<char>)
    ensures
        v@ == ascii_lower(s@),
{
    let n = s.unicode_len();
    let mut v: Vec<char> = Vec::new();
    let mut i: usize = 0;
    while i < n
        invariant
            n == s@.len(),
            i <= n,
            v@ == ascii_lower(s@).take(i as int),
        decreases n - i,
    {
        v.push(lower_char(s.get_char(i)));
        i = i + 1;
        assert(v@ =~= ascii_lower(s@).take(i as int));
    }
    assert(v@ =~= ascii_lower(s@));
    v
}

/// Equality of a character vector with a string.
pub fn chars_is(v: &Vec<char>, lit: &str) -> (r: bool)
    ensures
        r == (v@ == lit@),
{
    let n = lit.unicode_len();
    if v.len() != n {
        return false;
    }
    let mut i: usize = 0;
    while i < n
        invariant
            n == lit@.len(),
            n == v@.len(),
            i <= n,
            forall|j: int| 0 <= j < i ==> v@[j] == lit@[j],
        decreases n - i,
    {
        if v[i] != lit.get_char(i) {
            return false;
        }
        i = i + 1;
    }
    assert(v@ =~= lit@);
    true
}

/// Append `s`, ASCII lower-cased.
pub fn push_lowercase(out: &mut String, s: &str)
    ensures
        final(out)@ == old(out)@ + ascii_lower(s@),
{
    let alphabet = "abcdefghijklmnopqrstuvwxyz";
    proof {
        reveal_strlit("abcdefghijklmnopqrstuvwxyz");
    }
    let n = s.unicode_len();
    let mut i: usize = 0;
    while i < n
        invariant
            n == s@.len(),
            i <= n,
            alphabet@ == "abcdefghijklmnopqrstuvwxyz"@,
            alphabet@.len() == 26,
            forall|k: int| 0 <= k < 26 ==> #[trigger] alphabet@[k] == ((97 + k) as u32) as char,
            out@ == old(out)@ + ascii_lower(s@).take(i as int),
        decreases n - i,
    {
        let c = s.get_char(i);
        if 'A' <= c && c <= 'Z' {
            let k = ((c as u8) - 65) as usize;
            let piece = alphabet.substring_char(k, k + 1);
            assert(piece@ =~= seq![ascii_lower_char(c)]);
            out.append(piece);
        } else {
            let piece = s.substring_char(i, i + 1);
            assert(piece@ =~= seq![ascii_lower_char(c)]);
            out.append(piece);
        }
        i = i + 1;
        assert(out@ =~= old(out)@ + ascii_lower(s@).take(i as int));
    }
    assert(ascii_lower(s@).take(n as int) =~= ascii_lower(s@));
}

/// Unicode whitespace test.
pub fn is_ws(c: char) -> (b: bool)
    ensures
        b == is_unicode_ws(c),
{
    let u = c as u32;
    (0x09 <= u && u <= 0x0d) || u == 0x20 || u == 0x85 || u == 0xa0 || u == 0x1680
        || (0x2000 <= u && u <= 0x200a) || u == 0x2028 || u == 0x2029 || u == 0x202f
        || u == 0x205f || u == 0x3000
}

/// `s` without leading and trailing Unicode whitespace.
pub fn trim(s: &str) -> (t: &str)
    ensures
        t@ == trim_spec(s@),
{
    let n = s.unicode_len();
    let mut lo: usize = 0;
    while lo < n && is_ws(s.get_char(lo))
        invariant
            n == s@.len(),
            lo <= n,
            first_non_ws(s@, lo as int) == first_non_ws(s@, 0),
        decreases n - lo,
    {
        lo = lo + 1;
    }
    let mut hi: usize = n;
    while hi > lo && is_ws(s.get_char(hi - 1))
        invariant
            n == s@.len(),
            lo == first_non_ws(s@, 0),
            lo <= hi <= n,
            last_non_ws_end(s@, lo as int, hi as int) == last_non_ws_end(s@, lo as int, n as int),
        decreases hi - lo,
    {
        hi = hi - 1;
    }
    s.substring_char(lo, hi)
}

/// Parse an unsigned byte as by `str::parse::<u8>`.
pub fn parse_u8(s: &Vec<char>, from: usize) -> (r: Option<u8>)
    requires
        from <= s@.len(),
    ensures
        r == parse_u8_spec(s@.skip(from as int)),
{
    let ghost t = s@.skip(from as int);
    let mut i = from;
    if i < s.len() && s[i] == '+' {
        i = i + 1;
    }
    let ghost d = if t.len() > 0 && t[0] == '+' { t.drop_first() } else { t };
    assert(d =~= s@.skip(i as int));
    if i >= s.len() {
        return None;
    }
    let start = i;
    let mut v: u32 = 0;
    while i < s.len()
        invariant
            start <= i <= s@.len(),
            start < s@.len(),
            d == s@.skip(start as int),
            t == s@.skip(from as int),
            d == (if t.len() > 0 && t[0] == '+' { t.drop_first() } else { t }),
            all_digits(s@.subrange(start as int, i as int)),
            v == digits_value(s@.subrange(start as int, i as int)),
            v <= 255,
        decreases s@.len() - i,
    {
        let c = s[i];
        if c < '0' || c > '9' {
            assert(d[i - start] == c);
            assert(!('0' <= d[i - start] && d[i - start] <= '9'));
            assert(!all_digits(d));
            return None;
        }
        let dv = (c as u32) - 48;
        let ghost pre = s@.subrange(start as int, i as int);
        assert(s@.subrange(start as int, i + 1).drop_last() =~= pre);
        if v * 10 + dv > 255 {
            proof {
                assert(d.take((i + 1 - start) as int) =~= s@.subrange(start as int, i + 1));
                if all_digits(d) {
                    lemma_digits_value_monotone(d, (i + 1 - start) as nat);
                }
            }
            return None;
        }
        v = v * 10 + dv;
        i = i + 1;
    }
    assert(s@.subrange(start as int, i as int) =~= d);
    Some(v as u8)
}

/// A digit run's value is at least that of any of its prefixes.
pub proof fn lemma_digits_value_monotone(d: Seq<char>, k: nat)
    requires
        k <= d.len(),
        all_digits(d),
    ensures
        digits_value(d.take(k as int)) <= digits_value(d),
    decreases d.len(),
{
    if k < d.len() {
        let p = d.drop_last();
        assert(all_digits(p));
        assert(p.take(k as int) =~= d.take(k as int));
        lemma_digits_value_monotone(p, k);
    } else {
        assert(d.take(k as int) =~= d);
    }
}

} // verus!
