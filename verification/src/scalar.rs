//! Strings, characters and comments.
use vstd::prelude::*;
use crate::chars::{digit_value, to_digit};
use crate::decimal::{int_text, nat_text, push_i64_text, push_u64_text};
use crate::edn::{Edn, EdnValue};
use crate::syntax::{
    Parsed, ReadFailure, agrees, whitespace_char, macro_char, decimal_char, is_whitespace,
    is_macro, token_at, token_from,
};
use crate::text::{chars_equal, message, message_char};
use vstd::string::StringExecFns;

verus! {

/// The character whose code point is `v`.
pub open spec fn char_of(v: int) -> char {
    (v as u32) as char
}

/// A number that `char::from_u32` accepts.
pub open spec fn scalar_value(v: int) -> bool {
    (0 <= v <= 0xD7FF) || (0xE000 <= v <= 0x10FFFF)
}

/// `36` to the power `n`.
pub open spec fn pow36(n: nat) -> nat
    decreases n,
{
    if n == 0 { 1 } else { 36 * pow36((n - 1) as nat) }
}

/// How reading a character code ends, after `i` digits in all, at position `k`.
pub open spec fn code_finish(i: int, length: int, uc: nat, exact: bool, k: int) -> Parsed<char> {
    if i != length && exact {
        Parsed::Fail("Invalid character length: "@ + int_text(i) + ", should be: "@ + int_text(length), k)
    } else if scalar_value(uc as int) {
        Parsed::Done(char_of(uc as int), k)
    } else {
        Parsed::Fail("Invalid character: "@ + nat_text(uc), k)
    }
}

/// The digits of a character code from `k`, `i` digits having been read (the code so far
/// `uc`): up to `length` digits in all, stopping at the end of input, whitespace or a
/// macro character. The code is a `u32`: where a digit takes it past `u32::MAX`, the
/// arithmetic overflows and reading panics.
pub open spec fn code_digits(s: Seq<char>, k: int, i: int, length: int, base: u32, uc: nat, exact: bool) -> Parsed<char>
    decreases length - i,
{
    if i >= length {
        code_finish(i, length, uc, exact, k)
    } else if k < 0 || k >= s.len() || whitespace_char(s[k]) || macro_char(s[k]) {
        code_finish(i, length, uc, exact, k)
    } else {
        match digit_value(s[k], base) {
            None => Parsed::Fail("Invalid digit: "@.push(s[k]), k + 1),
            Some(d) => if uc * base + d > u32::MAX {
                Parsed::Panics
            } else {
                code_digits(s, k + 1, i + 1, length, base, (uc * base + d) as nat, exact)
            },
        }
    }
}

/// A character code in `base` whose first digit `ch` was consumed, with at most `length`
/// digits in all (`ch` counted), the others read from `p`. When `exact`, there must be
/// `length` digits.
pub open spec fn code_at(s: Seq<char>, p: int, ch: char, base: u32, length: i32, exact: bool) -> Parsed<char> {
    match digit_value(ch, base) {
        None => Parsed::Fail("Invalid digit: "@.push(ch), p),
        Some(u0) => code_digits(s, p, 1, length as int, base, u0 as nat, exact),
    }
}

proof fn lemma_pow36_mono(a: nat, b: nat)
    requires
        a <= b,
    ensures
        1 <= pow36(a) <= pow36(b),
    decreases b,
{
    if b > 0 {
        if a < b {
            lemma_pow36_mono(a, (b - 1) as nat);
        } else {
            lemma_pow36_mono(0, (b - 1) as nat);
        }
    }
}

proof fn lemma_pow36_5()
    ensures
        pow36(5) == 60466176,
{
    reveal_with_fuel(pow36, 6);
}

proof fn lemma_code_bound(uc: nat, base: u32, d: u32, n: nat)
    requires
        uc < pow36(n),
        base <= 36,
        d < base,
    ensures
        uc * base + d < pow36(n + 1),
{
    assert(uc * base + d < pow36(n) * 36) by (nonlinear_arith)
        requires
            uc < pow36(n),
            base <= 36,
            d < base,
    ;
}

/// Reads a character code in `base`, its first digit `ch` consumed, from `pos`; `None`
/// where the `u32` code overflows.
pub fn code_from(s: &Vec<char>, pos: usize, ch: char, base: u32, length: i32, exact: bool) -> (r: Option<Result<(char, usize), ReadFailure>>)
    requires
        pos <= s@.len(),
        2 <= base <= 36,
    ensures
        match r {
            None => code_at(s@, pos as int, ch, base, length, exact) is Panics,
            Some(x) => agrees(x, code_at(s@, pos as int, ch, base, length, exact), |c: char| c),
        },
        r matches Some(Ok((_, q))) ==> pos <= q <= s@.len(),
        r matches Some(Err(ReadFailure::Error(_, q))) ==> q <= s@.len(),
{
    let first = to_digit(ch, base);
    if first.is_none() {
        return Some(Err(ReadFailure::Error(message_char("Invalid digit: ", ch), pos)));
    }
    let mut uc: u64 = first.unwrap() as u64;
    let mut i: i32 = 1;
    let mut k = pos;
    while i < length
        invariant
            pos <= k <= s@.len(),
            1 <= i,
            i <= length || i == 1,
            2 <= base <= 36,
            uc <= u32::MAX,
            code_digits(s@, k as int, i as int, length as int, base, uc as nat, exact)
                == code_at(s@, pos as int, ch, base, length, exact),
        decreases length - i,
    {
        if k >= s.len() || is_whitespace(s[k]) || is_macro(s[k]) {
            return Some(finish_code(i, length, uc, exact, k));
        }
        let c = s[k];
        k = k + 1;
        match to_digit(c, base) {
            None => {
                return Some(Err(ReadFailure::Error(message_char("Invalid digit: ", c), k)));
            },
            Some(d) => {
                assert(uc * base <= 0xFFFF_FFFFu64 * 36) by (nonlinear_arith)
                    requires
                        uc <= 0xFFFF_FFFFu64,
                        base <= 36,
                ;
                let next = uc * (base as u64) + (d as u64);
                if next > 0xFFFF_FFFFu64 {
                    return None;
                }
                uc = next;
            },
        }
        i = i + 1;
    }
    Some(finish_code(i, length, uc, exact, k))
}

fn finish_code(i: i32, length: i32, uc: u64, exact: bool, k: usize) -> (r: Result<(char, usize), ReadFailure>)
    requires
        uc <= u32::MAX,
    ensures
        agrees(r, code_finish(i as int, length as int, uc as nat, exact, k as int), |c: char| c),
        r matches Ok((_, q)) ==> q == k,
        r matches Err(ReadFailure::Error(_, q)) ==> q == k,
{
    if i != length && exact {
        let mut m = String::from_str("Invalid character length: ");
        push_i64_text(&mut m, i as i64);
        m.append(", should be: ");
        push_i64_text(&mut m, length as i64);
        return Err(ReadFailure::Error(m, k));
    }
    match core::char::from_u32(uc as u32) {
        Some(c) => {
            assert((uc as u32) as int == uc as int);
            proof { vstd::utf8::char_u32_cast(c, c as u32); }
            assert(c == char_of(uc as int));
            Ok((c, k))
        },
        None => {
            let mut m = String::from_str("Invalid character: ");
            push_u64_text(&mut m, uc);
            Err(ReadFailure::Error(m, k))
        },
    }
}


/// The code in `base` that the characters `ds` spell, continuing from `uc`; `None` where
/// a digit takes the `u32` code past `u32::MAX` and the arithmetic panics.
pub open spec fn token_code_digits(ds: Seq<char>, base: u32, uc: nat) -> Option<Result<Option<char>, Seq<char>>>
    decreases ds.len(),
{
    if ds.len() == 0 {
        Some(Ok(if scalar_value(uc as int) { Some(char_of(uc as int)) } else { None }))
    } else {
        match digit_value(ds[0], base) {
            None => Some(Err("Invalid digit: "@.push(ds[0]))),
            Some(d) => if uc * base + d > u32::MAX {
                None
            } else {
                token_code_digits(ds.drop_first(), base, (uc * base + d) as nat)
            },
        }
    }
}

/// A character code written in a token: the token must have `offset + length` characters,
/// and its characters after the first `offset` are digits in `base`. The result is the
/// character, or `None` inside when the code is not one; `None` outside where the
/// `u32` code overflows.
pub open spec fn token_code(t: Seq<char>, offset: int, length: int, base: u32) -> Option<Result<Option<char>, Seq<char>>> {
    if t.len() != offset + length {
        Some(Err("Invalid unicode character: \\"@ + t))
    } else {
        token_code_digits(if offset <= t.len() { t.skip(offset) } else { Seq::empty() }, base, 0)
    }
}

/// Reads the character code written in the token `t` after its first `offset` characters;
/// `None` where the code overflows `u32`.
pub fn token_code_of(t: &Vec<char>, offset: usize, length: usize, base: u32) -> (r: Option<Result<Option<char>, String>>)
    requires
        2 <= base <= 36,
        offset + length <= usize::MAX,
    ensures
        match r {
            None => token_code(t@, offset as int, length as int, base) is None,
            Some(Ok(c)) => token_code(t@, offset as int, length as int, base) == Some(Ok::<Option<char>, Seq<char>>(c)),
            Some(Err(m)) => token_code(t@, offset as int, length as int, base) == Some(Err::<Option<char>, Seq<char>>(m@)),
        },
{
    assert(t@.subrange(0, t@.len() as int) =~= t@);
    if t.len() != offset + length {
        return Some(Err(message("Invalid unicode character: \\", t, 0, t.len())));
    }
    let ghost ds = if offset <= t@.len() { t@.skip(offset as int) } else { Seq::<char>::empty() };
    let start = if offset <= t.len() { offset } else { t.len() };
    proof {
        assert(ds =~= t@.skip(start as int));
        assert(token_code(t@, offset as int, length as int, base) == token_code_digits(ds, base, 0));
    }
    let mut uc: u64 = 0;
    let mut i = start;
    while i < t.len()
        invariant
            start <= i <= t@.len(),
            2 <= base <= 36,
            uc <= u32::MAX,
            token_code(t@, offset as int, length as int, base) == token_code_digits(ds, base, 0),
            token_code_digits(t@.skip(i as int), base, uc as nat) == token_code_digits(ds, base, 0),
            ds =~= t@.skip(start as int),
        decreases t@.len() - i,
    {
        let c = t[i];
        assert(t@.skip(i as int)[0] == c);
        assert(t@.skip(i as int).drop_first() =~= t@.skip(i + 1));
        match to_digit(c, base) {
            None => {
                assert(token_code_digits(t@.skip(i as int), base, uc as nat) == Some(Err::<Option<char>, Seq<char>>("Invalid digit: "@.push(c))));
                return Some(Err(message_char("Invalid digit: ", c)));
            },
            Some(d) => {
                assert(uc * base <= 0xFFFF_FFFFu64 * 36) by (nonlinear_arith)
                    requires
                        uc <= 0xFFFF_FFFFu64,
                        base <= 36,
                ;
                let next = uc * (base as u64) + (d as u64);
                if next > 0xFFFF_FFFFu64 {
                    return None;
                }
                uc = next;
            },
        }
        i = i + 1;
    }
    assert(t@.skip(i as int) =~= Seq::<char>::empty());
    match core::char::from_u32(uc as u32) {
        Some(c) => {
            assert((uc as u32) as int == uc as int);
            proof { vstd::utf8::char_u32_cast(c, c as u32); }
            Some(Ok(Some(c)))
        },
        None => Some(Ok(None)),
    }
}

/// The character a `\` token names: one character, a name (`newline`, `space`, `tab`,
/// `backspace`, `formfeed`, `return`), `u` and four hex digits, or `o` and at most three
/// octal digits (at most `0o377`).
pub open spec fn character_value(tok: Seq<char>) -> Result<char, Seq<char>> {
    if tok.len() == 1 {
        Ok(tok[0])
    } else if tok == "newline"@ {
        Ok('\n')
    } else if tok == "space"@ {
        Ok(' ')
    } else if tok == "tab"@ {
        Ok('\t')
    } else if tok == "backspace"@ {
        Ok('\x08')
    } else if tok == "formfeed"@ {
        Ok('\x0c')
    } else if tok == "return"@ {
        Ok('\r')
    } else if tok.len() > 0 && tok[0] == 'u' {
        match token_code(tok, 1, 4, 16) {
            Some(Err(m)) => Err(m),
            Some(Ok(Some(c))) => Ok(c),
            _ => Err("Invalid character constant: \\"@ + tok),
        }
    } else if tok.len() > 0 && tok[0] == 'o' {
        if tok.len() - 1 > 3 {
            Err("Invalid octal escape sequence length: "@ + int_text(tok.len() - 1))
        } else {
            match token_code(tok, 1, tok.len() - 1, 8) {
                Some(Err(m)) => Err(m),
                Some(Ok(Some(c))) => if c as u32 > 0o377 {
                    Err("Octal escape sequence must be in range [0, 377]."@)
                } else {
                    Ok(c)
                },
                _ => Err("Invalid character constant: \\"@ + tok),
            }
        }
    } else {
        Err("Unsupported character: \\"@ + tok)
    }
}

/// A character literal whose `\` was consumed, from `p`.
pub open spec fn character_at(s: Seq<char>, p: int) -> Parsed<Option<EdnValue>> {
    if p < 0 {
        Parsed::Panics
    } else if p >= s.len() {
        Parsed::Fail("EOF while reading character"@, p)
    } else {
        match token_at(s, p + 1, s[p], false) {
            Parsed::Done(tok, q) => match character_value(tok) {
                Ok(c) => Parsed::Done(Some(EdnValue::Char(c)), q),
                Err(m) => Parsed::Fail(m, q),
            },
            Parsed::Fail(m, q) => Parsed::Fail(m, q),
            Parsed::Panics => Parsed::Panics,
        }
    }
}

/// The character that a `\` token names (see `character_value`).
fn character_of(tok: &Vec<char>) -> (r: Result<char, String>)
    ensures
        match r {
            Ok(c) => character_value(tok@) == Ok::<char, Seq<char>>(c),
            Err(m) => character_value(tok@) == Err::<char, Seq<char>>(m@),
        },
{
    let n = tok.len();
    assert(tok@.subrange(0, n as int) =~= tok@);
    if n == 1 {
        Ok(tok[0])
    } else if chars_equal(tok, 0, n, "newline") {
        Ok('\n')
    } else if chars_equal(tok, 0, n, "space") {
        Ok(' ')
    } else if chars_equal(tok, 0, n, "tab") {
        Ok('\t')
    } else if chars_equal(tok, 0, n, "backspace") {
        Ok('\x08')
    } else if chars_equal(tok, 0, n, "formfeed") {
        Ok('\x0c')
    } else if chars_equal(tok, 0, n, "return") {
        Ok('\r')
    } else if n > 0 && tok[0] == 'u' {
        match token_code_of(tok, 1, 4, 16) {
            Some(Err(m)) => Err(m),
            Some(Ok(Some(c))) => Ok(c),
            _ => Err(message("Invalid character constant: \\", tok, 0, n)),
        }
    } else if n > 0 && tok[0] == 'o' {
        if n - 1 > 3 {
            let mut m = String::from_str("Invalid octal escape sequence length: ");
            push_u64_text(&mut m, (n - 1) as u64);
            assert(int_text(tok@.len() - 1) == nat_text((n - 1) as u64 as nat));
            Err(m)
        } else {
            match token_code_of(tok, 1, n - 1, 8) {
                Some(Err(m)) => Err(m),
                Some(Ok(Some(c))) => {
                    if (c as u32) > 0o377 {
                        Err(String::from_str("Octal escape sequence must be in range [0, 377]."))
                    } else {
                        Ok(c)
                    }
                },
                _ => Err(message("Invalid character constant: \\", tok, 0, n)),
            }
        }
    } else {
        Err(message("Unsupported character: \\", tok, 0, n))
    }
}

proof fn lemma_char_model(c: char)
    ensures
        Edn::Char(c).model() == EdnValue::Char(c),
{
}

/// Reads a character literal whose `\\` was consumed, from `pos`.
pub fn read_character(s: &Vec<char>, pos: usize) -> (r: Result<(Option<Edn>, usize), ReadFailure>)
    requires
        pos <= s@.len(),
    ensures
        agrees(r, character_at(s@, pos as int), |e: Option<Edn>| match e {
            Some(v) => Some(v.model()),
            None => None,
        }),
        r matches Ok((_, q)) ==> pos < q <= s@.len(),
        r matches Err(ReadFailure::Error(_, q)) ==> q <= s@.len(),
{
    if pos >= s.len() {
        return Err(ReadFailure::Error(String::from_str("EOF while reading character"), pos));
    }
    let t = s[pos];
    let (tok, q) = match token_from(s, pos + 1, t, false) {
        Ok(x) => x,
        Err(e) => {
            return Err(e);
        },
    };
    match character_of(&tok) {
        Err(m) => Err(ReadFailure::Error(m, q)),
        Ok(c) => {
            proof { lemma_char_model(c); }
            Ok((Some(Edn::Char(c)), q))
        },
    }
}

/// Where a comment that starts at `p` ends: after the first line feed or carriage
/// return, or at the end of input.
pub open spec fn comment_end(s: Seq<char>, p: int) -> int
    decreases s.len() - p,
{
    if p < 0 || p >= s.len() {
        p
    } else if s[p] == '\n' || s[p] == '\r' {
        p + 1
    } else {
        comment_end(s, p + 1)
    }
}

/// Skips a comment whose `;` was consumed; it yields no value.
pub fn read_comment(s: &Vec<char>, pos: usize) -> (r: usize)
    requires
        pos <= s@.len(),
    ensures
        r as int == comment_end(s@, pos as int),
        pos <= r <= s@.len(),
{
    let mut p = pos;
    while p < s.len()
        invariant
            pos <= p <= s@.len(),
            comment_end(s@, p as int) == comment_end(s@, pos as int),
        decreases s@.len() - p,
    {
        if s[p] == '\n' || s[p] == '\r' {
            return p + 1;
        }
        p = p + 1;
    }
    p
}

/// The rest of a string literal from `i`, the characters so far being `acc`. `Panics`
/// stands only in branches that the positions rule out, and for a code that overflows,
/// which four hex or three octal digits never do (`lemma_code_never_panics`).
pub open spec fn string_body(s: Seq<char>, i: int, acc: Seq<char>) -> Parsed<Option<EdnValue>>
    decreases s.len() - i,
{
    if i < 0 {
        Parsed::Panics
    } else if i >= s.len() {
        Parsed::Fail("EOF while reading string"@, i)
    } else if s[i] == '"' {
        Parsed::Done(Some(EdnValue::Str(acc)), i + 1)
    } else if s[i] != '\\' {
        string_body(s, i + 1, acc.push(s[i]))
    } else if i + 1 >= s.len() {
        Parsed::Fail("EOF while reading string"@, i + 1)
    } else {
        let e = s[i + 1];
        if e == 't' {
            string_body(s, i + 2, acc.push('\t'))
        } else if e == 'r' {
            string_body(s, i + 2, acc.push('\r'))
        } else if e == 'n' {
            string_body(s, i + 2, acc.push('\n'))
        } else if e == '\\' {
            string_body(s, i + 2, acc.push('\\'))
        } else if e == '"' {
            string_body(s, i + 2, acc.push('"'))
        } else if e == 'b' {
            string_body(s, i + 2, acc.push('\x08'))
        } else if e == 'f' {
            string_body(s, i + 2, acc.push('\x0c'))
        } else if e == 'u' {
            if i + 2 >= s.len() {
                Parsed::Fail("EOF while reading string"@, i + 2)
            } else if digit_value(s[i + 2], 16) is None {
                Parsed::Fail("Unvalid unicode escape: \\u"@.push(s[i + 2]), i + 3)
            } else {
                match code_at(s, i + 3, s[i + 2], 16, 4, true) {
                    Parsed::Done(c, q) => if i < q <= s.len() {
                        string_body(s, q, acc.push(c))
                    } else {
                        Parsed::Panics
                    },
                    Parsed::Fail(m, q) => Parsed::Fail(m, q),
                    Parsed::Panics => Parsed::Panics,
                }
            }
        } else if decimal_char(e) {
            match code_at(s, i + 2, e, 8, 3, false) {
                Parsed::Done(c, q) => if c as u32 > 0o377 {
                    Parsed::Fail("Octal escape sequence must be in range [0, 377]."@, q)
                } else if i < q <= s.len() {
                    string_body(s, q, acc.push(c))
                } else {
                    Parsed::Panics
                },
                Parsed::Fail(m, q) => Parsed::Fail(m, q),
                Parsed::Panics => Parsed::Panics,
            }
        } else {
            Parsed::Fail("Unsupported escape character: \\"@.push(e), i + 2)
        }
    }
}

/// A string literal whose opening `"` was consumed, from `p`.
pub open spec fn string_at(s: Seq<char>, p: int) -> Parsed<Option<EdnValue>> {
    string_body(s, p, Seq::empty())
}

/// Reads a string literal whose opening `"` was consumed, from `pos`.
pub fn read_string(s: &Vec<char>, pos: usize) -> (r: Result<(Option<Edn>, usize), ReadFailure>)
    requires
        pos <= s@.len(),
    ensures
        agrees(r, string_at(s@, pos as int), |e: Option<Edn>| match e {
            Some(v) => Some(v.model()),
            None => None,
        }),
        r matches Ok((_, q)) ==> pos < q <= s@.len(),
        r matches Err(ReadFailure::Error(_, q)) ==> q <= s@.len(),
{
    let mut out = String::new();
    let mut i = pos;
    while i < s.len()
        invariant
            pos <= i <= s@.len(),
            string_body(s@, i as int, out@) == string_at(s@, pos as int),
        decreases s@.len() - i,
    {
        let c = s[i];
        if c == '"' {
            return Ok((Some(Edn::String(out)), i + 1));
        }
        if c != '\\' {
            out.push(c);
            i = i + 1;
        } else {
            if i + 1 >= s.len() {
                return Err(ReadFailure::Error(String::from_str("EOF while reading string"), i + 1));
            }
            let e = s[i + 1];
            if e == 't' {
                out.push('\t');
                i = i + 2;
            } else if e == 'r' {
                out.push('\r');
                i = i + 2;
            } else if e == 'n' {
                out.push('\n');
                i = i + 2;
            } else if e == '\\' {
                out.push('\\');
                i = i + 2;
            } else if e == '"' {
                out.push('"');
                i = i + 2;
            } else if e == 'b' {
                out.push('\x08');
                i = i + 2;
            } else if e == 'f' {
                out.push('\x0c');
                i = i + 2;
            } else if e == 'u' {
                if i + 2 >= s.len() {
                    return Err(ReadFailure::Error(String::from_str("EOF while reading string"), i + 2));
                }
                let h = s[i + 2];
                if to_digit(h, 16).is_none() {
                    return Err(ReadFailure::Error(message_char("Unvalid unicode escape: \\u", h), i + 3));
                }
                proof { lemma_code_never_panics(s@, i + 3, h, 16, 4, true); }
                match code_from(s, i + 3, h, 16, 4, true) {
                    Some(Ok((c, q))) => {
                        out.push(c);
                        i = q;
                    },
                    Some(Err(e)) => {
                        return Err(e);
                    },
                    None => {
                        assert(false);
                        return Err(ReadFailure::Error(String::new(), i));
                    },
                }
            } else if '0' <= e && e <= '9' {
                proof { lemma_code_never_panics(s@, i + 2, e, 8, 3, false); }
                match code_from(s, i + 2, e, 8, 3, false) {
                    Some(Ok((c, q))) => {
                        if (c as u32) > 0o377 {
                            return Err(ReadFailure::Error(
                                String::from_str("Octal escape sequence must be in range [0, 377]."),
                                q,
                            ));
                        }
                        out.push(c);
                        i = q;
                    },
                    Some(Err(e)) => {
                        return Err(e);
                    },
                    None => {
                        assert(false);
                        return Err(ReadFailure::Error(String::new(), i));
                    },
                }
            } else {
                return Err(ReadFailure::Error(message_char("Unsupported escape character: \\", e), i + 2));
            }
        }
    }
    Err(ReadFailure::Error(String::from_str("EOF while reading string"), i))
}

/// Reading a character code of at most five digits in a base up to 36 never panics:
/// the code stays below `36^5`, far inside `u32`.
pub proof fn lemma_code_never_panics(s: Seq<char>, p: int, ch: char, base: u32, length: i32, exact: bool)
    requires
        base <= 36,
        length <= 5,
    ensures
        !(code_at(s, p, ch, base, length, exact) is Panics),
{
    if let Some(u0) = digit_value(ch, base) {
        assert(pow36(1) == 36) by { assert(pow36(0) == 1); }
        lemma_code_digits_never_panic(s, p, 1, length as int, base, u0 as nat, exact);
    }
}

proof fn lemma_code_digits_never_panic(s: Seq<char>, k: int, i: int, length: int, base: u32, uc: nat, exact: bool)
    requires
        1 <= i,
        length <= 5,
        base <= 36,
        uc < pow36(i as nat),
    ensures
        !(code_digits(s, k, i, length, base, uc, exact) is Panics),
    decreases length - i,
{
    if i < length && !(k < 0 || k >= s.len() || whitespace_char(s[k]) || macro_char(s[k])) {
        if let Some(d) = digit_value(s[k], base) {
            lemma_code_bound(uc, base, d, i as nat);
            lemma_pow36_mono((i + 1) as nat, 5);
            lemma_pow36_5();
            lemma_code_digits_never_panic(s, k + 1, i + 1, length, base, (uc * base + d) as nat, exact);
        }
    }
}

} // verus!
