//! Texts: how to split them between two characters, to compare them, to
//! write a number in decimal notation, and to tell a decimal literal and an
//! identifier.

use vstd::prelude::*;
use vstd::string::*;
use vstd::utf8::*;

verus! {

/// Number of bytes that the UTF-8 encoding of `c` occupies.
pub fn utf8_width(c: char) -> (w: usize)
    ensures
        w == encode_scalar(c as u32).len(),
{
    let u: u32 = c as u32;
    if u < 0x80 {
        1
    } else if u < 0x800 {
        2
    } else if u < 0x10000 {
        3
    } else {
        4
    }
}

/// Two strings with the same UTF-8 bytes hold the same characters.
pub proof fn lemma_same_bytes_same_chars(a: Seq<char>, b: Seq<char>)
    requires
        encode_utf8(a) == encode_utf8(b),
    ensures
        a == b,
{
    encode_utf8_decode_utf8(a);
    encode_utf8_decode_utf8(b);
}

/// Splits `text` at the byte offset `mid`, which must lie between two characters.
pub fn split_at_boundary<'a>(text: &'a str, mid: usize) -> (parts: (&'a str, &'a str))
    requires
        is_char_boundary(text.spec_bytes(), mid as int),
    ensures
        text@ == parts.0@ + parts.1@,
        parts.0.spec_bytes() == text.spec_bytes().subrange(0, mid as int),
{
    let parts = text.split_at(mid);
    proof {
        let bytes = encode_utf8(text@);
        encode_utf8_valid_utf8(text@);
        decode_utf8_split(bytes, mid as int);
        encode_utf8_decode_utf8(text@);
        encode_utf8_decode_utf8(parts.0@);
        encode_utf8_decode_utf8(parts.1@);
    }
    parts
}

/// Splits the first character off a non-empty `text`.
pub fn split_first<'a>(text: &'a str) -> (parts: (char, &'a str))
    requires
        text@.len() > 0,
    ensures
        parts.0 == text@[0],
        parts.1@ == text@.skip(1),
{
    let c = text.get_char(0);
    let w = utf8_width(c);
    proof {
        let bytes = encode_utf8(text@);
        encode_utf8_valid_utf8(text@);
        encode_utf8_first_scalar(text@);
        assert(pop_first_scalar(bytes) =~= encode_utf8(text@.drop_first()));
        encode_utf8_valid_utf8(text@.drop_first());
        assert(is_char_boundary(pop_first_scalar(bytes), 0));
        reveal_with_fuel(is_char_boundary, 2);
        assert(is_char_boundary(bytes, w as int));
    }
    let parts = text.split_at(w);
    proof {
        let bytes = encode_utf8(text@);
        encode_utf8_first_scalar(text@);
        assert(pop_first_scalar(bytes) =~= encode_utf8(text@.drop_first()));
        lemma_same_bytes_same_chars(parts.1@, text@.drop_first());
        assert(text@.drop_first() =~= text@.skip(1));
    }
    (c, parts.1)
}

/// Decides whether two texts hold the same characters.
pub fn same_text(a: &str, b: &str) -> (same: bool)
    ensures
        same == (a@ == b@),
{
    let x = a.as_bytes();
    let y = b.as_bytes();
    if x.len() != y.len() {
        return false;
    }
    let mut i: usize = 0;
    while i < x.len()
        invariant
            i <= x@.len(),
            x@.len() == y@.len(),
            x@ == encode_utf8(a@),
            y@ == encode_utf8(b@),
            forall|k: int| 0 <= k < i ==> x@[k] == y@[k],
        decreases x@.len() - i,
    {
        if x[i] != y[i] {
            return false;
        }
        i += 1;
    }
    proof {
        assert(x@ =~= y@);
        lemma_same_bytes_same_chars(a@, b@);
    }
    true
}

/// The decimal digit that stands for `d`, which is below ten.
pub open spec fn decimal_digit(d: nat) -> char {
    ((48 + d) as u8) as char
}

/// The decimal notation of `n`, without leading zeros.
pub open spec fn decimal(n: nat) -> Seq<char>
    decreases n,
{
    if n < 10 {
        seq![decimal_digit(n)]
    } else {
        decimal(n / 10).push(decimal_digit(n % 10))
    }
}

/// Appends the decimal notation of `n` to `s`.
pub fn push_decimal(s: &mut String, n: u32)
    ensures
        final(s)@ == old(s)@ + decimal(n as nat),
    decreases n,
{
    if n >= 10 {
        push_decimal(s, n / 10);
    }
    let d: u8 = (n % 10) as u8;
    s.push((48u8 + d) as char);
    assert(final(s)@ =~= old(s)@ + decimal(n as nat));
}

/// Whether `c` is one of the ten ASCII digits.
pub open spec fn is_digit(c: char) -> bool {
    '0' <= c <= '9'
}

/// The index at which the run of digits that starts at `i` ends.
pub open spec fn digits_end(s: Seq<char>, i: int) -> int
    decreases s.len() - i,
{
    if 0 <= i < s.len() && is_digit(s[i]) {
        digits_end(s, i + 1)
    } else {
        i
    }
}

/// Whether `s` is a decimal literal: one or more digits, then optionally a
/// point and any number of digits, then optionally `e` or `E` and one or more
/// digits. Such a literal has a value as a floating-point number.
pub open spec fn is_decimal_literal(s: Seq<char>) -> bool {
    let whole = digits_end(s, 0);
    let fraction = if whole < s.len() && s[whole] == '.' {
        digits_end(s, whole + 1)
    } else {
        whole
    };
    let exponent = if fraction < s.len() && (s[fraction] == 'e' || s[fraction] == 'E') {
        digits_end(s, fraction + 1)
    } else {
        fraction
    };
    &&& whole > 0
    &&& exponent == s.len()
    &&& fraction < s.len() ==> exponent > fraction + 1
}

/// The characters that the ASCII bytes stand for.
pub open spec fn ascii_chars(bytes: Seq<u8>) -> Seq<char> {
    bytes.map_values(|b: u8| b as char)
}

/// Runs over the digits of the ASCII text `bytes` from `start` on.
fn skip_digits(bytes: &[u8], start: usize) -> (end: usize)
    requires
        start <= bytes@.len(),
    ensures
        end == digits_end(ascii_chars(bytes@), start as int),
        start <= end <= bytes@.len(),
{
    let mut i: usize = start;
    while i < bytes.len() && 48 <= bytes[i] && bytes[i] <= 57
        invariant
            start <= i <= bytes@.len(),
            digits_end(ascii_chars(bytes@), start as int) == digits_end(
                ascii_chars(bytes@),
                i as int,
            ),
        decreases bytes@.len() - i,
    {
        i += 1;
    }
    i
}

/// Decides whether `text` is a decimal literal.
pub fn check_decimal_literal(text: &str) -> (ok: bool)
    ensures
        ok == is_decimal_literal(text@),
{
    if !text.is_ascii() {
        proof {
            lemma_decimal_literal_is_ascii(text@);
        }
        return false;
    }
    let bytes = text.as_bytes();
    proof {
        is_ascii_chars_encode_utf8(text@);
        assert(text@ =~= ascii_chars(bytes@)) by {
            assert forall|k: int| 0 <= k < text@.len() implies text@[k] == bytes@[k] as char by {
                assert(text@[k] as u8 == bytes@[k]);
            }
        }
    }
    let whole = skip_digits(bytes, 0);
    let fraction = if whole < bytes.len() && bytes[whole] == 46 {
        skip_digits(bytes, whole + 1)
    } else {
        whole
    };
    let exponent = if fraction < bytes.len() && (bytes[fraction] == 101 || bytes[fraction] == 69) {
        skip_digits(bytes, fraction + 1)
    } else {
        fraction
    };
    whole > 0 && exponent == bytes.len() && (fraction >= bytes.len() || exponent > fraction + 1)
}

/// Whether `c` is one of the letters of ASCII.
pub open spec fn is_letter(c: char) -> bool {
    'a' <= c <= 'z' || 'A' <= c <= 'Z'
}

/// Whether `s` is an identifier: one or more letters of ASCII.
pub open spec fn is_identifier(s: Seq<char>) -> bool {
    s.len() > 0 && forall|i: int| 0 <= i < s.len() ==> is_letter(#[trigger] s[i])
}

/// Decides whether `text` is an identifier.
pub fn check_identifier(text: &str) -> (ok: bool)
    ensures
        ok == is_identifier(text@),
{
    if !text.is_ascii() {
        return false;
    }
    let bytes = text.as_bytes();
    proof {
        is_ascii_chars_encode_utf8(text@);
    }
    if bytes.len() == 0 {
        return false;
    }
    let mut i: usize = 0;
    while i < bytes.len()
        invariant
            i <= bytes@.len(),
            bytes@.len() == text@.len(),
            is_ascii_chars(text@),
            forall|k: int| 0 <= k < text@.len() ==> text@[k] as u8 == #[trigger] bytes@[k],
            forall|k: int| 0 <= k < i ==> is_letter(#[trigger] text@[k]),
        decreases bytes@.len() - i,
    {
        let b = bytes[i];
        assert(text@[i as int] as u8 == bytes@[i as int]);
        if !((97 <= b && b <= 122) || (65 <= b && b <= 90)) {
            return false;
        }
        i += 1;
    }
    true
}

/// The run of digits from `i` on ends at or after `i` and within `s`.
pub proof fn lemma_digits_end_bounds(s: Seq<char>, i: int)
    requires
        0 <= i <= s.len(),
    ensures
        i <= digits_end(s, i) <= s.len(),
        forall|k: int| i <= k < digits_end(s, i) ==> is_digit(#[trigger] s[k]),
    decreases s.len() - i,
{
    if i < s.len() && is_digit(s[i]) {
        lemma_digits_end_bounds(s, i + 1);
    }
}

/// A decimal literal holds ASCII characters only.
pub proof fn lemma_decimal_literal_is_ascii(s: Seq<char>)
    ensures
        is_decimal_literal(s) ==> is_ascii_chars(s),
{
    if is_decimal_literal(s) {
        let whole = digits_end(s, 0);
        lemma_digits_end_bounds(s, 0);
        let fraction = if whole < s.len() && s[whole] == '.' {
            digits_end(s, whole + 1)
        } else {
            whole
        };
        if whole < s.len() && s[whole] == '.' {
            lemma_digits_end_bounds(s, whole + 1);
        }
        if fraction < s.len() && (s[fraction] == 'e' || s[fraction] == 'E') {
            lemma_digits_end_bounds(s, fraction + 1);
        }
        assert forall|k: int| 0 <= k < s.len() implies '\0' <= #[trigger] s[k] <= '\u{7f}' by {
            if k < whole {
            } else if k == whole {
            } else if k < fraction {
            } else if k == fraction {
            } else {
            }
        }
    }
}

} // verus!
