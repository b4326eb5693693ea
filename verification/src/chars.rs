//! Character classes used by the reader, and the few character facts that
//! come from outside the crate.
use vstd::prelude::*;

verus! {

/// Whether a character outside ASCII has the Unicode `Alphabetic` property, as
/// `char::is_alphabetic` decides.
pub uninterp spec fn unicode_alphabetic(c: char) -> bool;

/// Whether a character outside ASCII is a Unicode decimal digit (general category `Nd`),
/// the class that the `regex` crate's `\d` stands for.
pub uninterp spec fn unicode_decimal_digit(c: char) -> bool;

/// Whether `c` has the Unicode `White_Space` property: `U+0009` to `U+000D`, the space,
/// `U+0085`, `U+00A0`, `U+1680`, `U+2000` to `U+200A`, `U+2028`, `U+2029`, `U+202F`,
/// `U+205F` and `U+3000`.
pub open spec fn white_space(c: char) -> bool {
    let v = c as u32;
    ||| 0x09 <= v <= 0x0D
    ||| v == 0x20
    ||| v == 0x85
    ||| v == 0xA0
    ||| v == 0x1680
    ||| 0x2000 <= v <= 0x200A
    ||| v == 0x2028
    ||| v == 0x2029
    ||| v == 0x202F
    ||| v == 0x205F
    ||| v == 0x3000
}

/// Whether `c` has the Unicode `Alphabetic` property: among ASCII characters, the letters.
pub open spec fn alphabetic(c: char) -> bool {
    if (c as u32) < 0x80 {
        ('a' <= c && c <= 'z') || ('A' <= c && c <= 'Z')
    } else {
        unicode_alphabetic(c)
    }
}

/// Whether `c` is a Unicode decimal digit: among ASCII characters, `0` to `9`.
pub open spec fn decimal_digit(c: char) -> bool {
    if (c as u32) < 0x80 {
        '0' <= c && c <= '9'
    } else {
        unicode_decimal_digit(c)
    }
}

/// Whether `c` has the Unicode `White_Space` property, the class that `char::is_whitespace`
/// answers for.
pub(crate) fn is_unicode_whitespace(c: char) -> (r: bool)
    ensures
        r == white_space(c),
{
    let v = c as u32;
    (0x09 <= v && v <= 0x0D) || v == 0x20 || v == 0x85 || v == 0xA0 || v == 0x1680
        || (0x2000 <= v && v <= 0x200A) || v == 0x2028 || v == 0x2029 || v == 0x202F
        || v == 0x205F || v == 0x3000
}

/// Calls `char::is_alphabetic`, which answers whether `c` has the Unicode `Alphabetic`
/// property. Claimed: among ASCII characters exactly the letters have it; for other
/// characters the answer is named, not stated.
#[verifier::external_body]
pub(crate) fn is_unicode_alphabetic(c: char) -> (r: bool)
    ensures
        (c as u32) < 0x80 ==> (r <==> (('a' <= c && c <= 'z') || ('A' <= c && c <= 'Z'))),
        (c as u32) >= 0x80 ==> r == unicode_alphabetic(c),
{
    c.is_alphabetic()
}

/// Asks the `regex` crate whether `c` matches `\d`, the Unicode decimal digits (`Nd`).
/// Claimed: among ASCII characters exactly `0` to `9` match; for other characters the
/// answer is named, not stated.
#[verifier::external_body]
pub(crate) fn is_unicode_decimal_digit(c: char) -> (r: bool)
    ensures
        (c as u32) < 0x80 ==> (r <==> ('0' <= c && c <= '9')),
        (c as u32) >= 0x80 ==> r == unicode_decimal_digit(c),
{
    let mut buf = [0u8; 4];
    regex::Regex::new(r"\d").unwrap().is_match(c.encode_utf8(&mut buf))
}

/// `String::push` appends one character.
pub assume_specification[ std::string::String::push ](s: &mut std::string::String, ch: char)
    ensures
        final(s)@ == old(s)@.push(ch),
;

/// `char::from_u32` gives the character with that code point, or `None` when the
/// number is a surrogate or above `0x10FFFF`.
pub assume_specification[ core::char::from_u32 ](i: u32) -> (r: Option<char>)
    ensures
        r is Some <==> (i <= 0xD7FF || (0xE000 <= i && i <= 0x10FFFF)),
        r matches Some(c) ==> c as u32 == i,
;

/// The value of `c` as a digit in `radix`, as `char::to_digit` defines it.
pub open spec fn digit_value(c: char, radix: u32) -> Option<u32> {
    let d: int = if '0' <= c && c <= '9' {
        c as int - '0' as int
    } else if 'a' <= c && c <= 'z' {
        c as int - 'a' as int + 10
    } else if 'A' <= c && c <= 'Z' {
        c as int - 'A' as int + 10
    } else {
        36
    };
    if d < radix { Some(d as u32) } else { None }
}

/// `char::to_digit` for a radix of at most 36.
pub fn to_digit(c: char, radix: u32) -> (r: Option<u32>)
    requires
        2 <= radix <= 36,
    ensures
        r == digit_value(c, radix),
{
    let d: u32 = if '0' <= c && c <= '9' {
        (c as u32) - ('0' as u32)
    } else if 'a' <= c && c <= 'z' {
        (c as u32) - ('a' as u32) + 10
    } else if 'A' <= c && c <= 'Z' {
        (c as u32) - ('A' as u32) + 10
    } else {
        36
    };
    if d < radix { Some(d) } else { None }
}

} // verus!
