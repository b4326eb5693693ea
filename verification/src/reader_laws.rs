//! Laws of reading: what string escapes, exponents and metadata mean.
use vstd::prelude::*;
use crate::bigint::float_model;
use crate::edn::EdnValue;
use crate::number::{
    number_value, radix_value, all_decimal, integer_body, radix_body, fraction_value, decimal_of_body,
    decimal_parts, exponent_part, digits_end, sign_length, digit_values,
};
use crate::reader::{read_at, macro_at, meta_at, dispatch_at, discard_at, tagged_at, symbolic_at};
use crate::chars::alphabetic;
use crate::edn::FloatModel;
use crate::scalar::comment_end;
use crate::chars::digit_value;
use crate::decimal::{int_text, nat_text};
use crate::round_trip::{lemma_nat_text_digits, lemma_int_text, lemma_simple_captures, lemma_qualified_captures, simple_name};
use crate::reader::renamed_key;
use crate::symbol::{symbol_parts, symbol_captures};
use crate::display::edn_text;
use crate::bigint::{float_text, zeros, pow10};
use crate::number::ratio_terms;
use crate::round_trip::{lemma_digits_end, lemma_radix_decimal};
use crate::scalar::{
    string_at, string_body, code_at, code_digits, code_finish, char_of, scalar_value, character_at,
    character_value, token_code, token_code_digits,
};
use crate::syntax::{token_at, token_stop, terminating_macro_char, non_constituent_char};
use crate::syntax::{Parsed, skip_ws, decimal_char, macro_char, whitespace_char};

verus! {

/// Characters that stand for themselves inside a string literal: neither a quote nor a
/// backslash.
pub open spec fn literal_run(x: Seq<char>) -> bool {
    forall|i: int| 0 <= i < x.len() ==> #[trigger] x[i] != '"' && x[i] != '\\'
}

/// The string literal of `x`, the escape of the letter `e`, then `y`.
pub open spec fn escaped_literal(x: Seq<char>, e: char, y: Seq<char>) -> Seq<char> {
    seq!['"'] + x + seq!['\\', e] + y + seq!['"']
}

proof fn lemma_literal_run(s: Seq<char>, i: int, x: Seq<char>, acc: Seq<char>)
    requires
        0 <= i,
        i + x.len() <= s.len(),
        s.subrange(i, i + x.len()) == x,
        literal_run(x),
    ensures
        string_body(s, i, acc) == string_body(s, i + x.len(), acc + x),
    decreases x.len(),
{
    if x.len() == 0 {
        assert(acc + x =~= acc);
    } else {
        assert(s[i] == s.subrange(i, i + x.len())[0]);
        assert(s[i] == x[0]);
        assert(x[0] != '"' && x[0] != '\\');
        assert(s.subrange(i + 1, i + x.len()) =~= x.drop_first());
        assert forall|j: int| 0 <= j < x.drop_first().len() implies #[trigger] x.drop_first()[j] != '"'
            && x.drop_first()[j] != '\\' by {
            assert(x.drop_first()[j] == x[j + 1]);
        }
        lemma_literal_run(s, i + 1, x.drop_first(), acc.push(x[0]));
        assert(acc.push(x[0]) + x.drop_first() =~= acc + x);
    }
}

/// The character that the escape letter `e` stands for.
spec fn escape_meaning(e: char) -> char {
    if e == 't' { '\t' }
    else if e == 'r' { '\r' }
    else if e == 'n' { '\n' }
    else if e == 'b' { '\x08' }
    else if e == 'f' { '\x0c' }
    else { e }
}

proof fn lemma_escaped_literal(x: Seq<char>, e: char, y: Seq<char>)
    requires
        literal_run(x),
        literal_run(y),
        e == 't' || e == 'r' || e == 'n' || e == 'b' || e == 'f' || e == '\\' || e == '"',
    ensures
        read_at(escaped_literal(x, e, y), 0) == Parsed::Done(
            EdnValue::Str(x + seq![escape_meaning(e)] + y),
            escaped_literal(x, e, y).len() as int,
        ),
{
    let s = escaped_literal(x, e, y);
    let n = s.len() as int;
    let i: int = x.len() as int + 1;
    assert(s[0] == '"');
    assert(!whitespace_char('"'));
    assert(skip_ws(s, 0) == 0);
    assert(!decimal_char('"'));
    assert(macro_char('"'));
    assert(s.subrange(1, i) =~= x);
    lemma_literal_run(s, 1, x, Seq::empty());
    assert(Seq::<char>::empty() + x =~= x);
    assert(s[i] == '\\');
    assert(s[i + 1] == e);
    let acc = x.push(escape_meaning(e));
    assert(string_body(s, i, x) == string_body(s, i + 2, acc));
    assert(s.subrange(i + 2, i + 2 + y.len()) =~= y);
    lemma_literal_run(s, i + 2, y, acc);
    assert(s[n - 1] == '"');
    assert(i + 2 + y.len() == n - 1);
    assert(acc + y =~= x + seq![escape_meaning(e)] + y);
    assert(string_at(s, 1) == Parsed::Done(Some(EdnValue::Str(acc + y)), n));
    assert(macro_at(s, 1, '"') == string_at(s, 1));
}

/// Each escape in a string literal stands for its character: `\t` a tab, `\r` a carriage
/// return, `\n` a line feed, `\b` a backspace, `\f` a form feed, `\\` a backslash and
/// `\"` a quote; the characters around it stand for themselves, and the literal is read
/// to its closing quote.
pub proof fn law_string_escapes(x: Seq<char>, y: Seq<char>)
    requires
        literal_run(x),
        literal_run(y),
    ensures
        read_at(escaped_literal(x, 't', y), 0)
            == Parsed::Done(EdnValue::Str(x + seq!['\t'] + y), escaped_literal(x, 't', y).len() as int),
        read_at(escaped_literal(x, 'r', y), 0)
            == Parsed::Done(EdnValue::Str(x + seq!['\r'] + y), escaped_literal(x, 'r', y).len() as int),
        read_at(escaped_literal(x, 'n', y), 0)
            == Parsed::Done(EdnValue::Str(x + seq!['\n'] + y), escaped_literal(x, 'n', y).len() as int),
        read_at(escaped_literal(x, 'b', y), 0)
            == Parsed::Done(EdnValue::Str(x + seq!['\x08'] + y), escaped_literal(x, 'b', y).len() as int),
        read_at(escaped_literal(x, 'f', y), 0)
            == Parsed::Done(EdnValue::Str(x + seq!['\x0c'] + y), escaped_literal(x, 'f', y).len() as int),
        read_at(escaped_literal(x, '\\', y), 0)
            == Parsed::Done(EdnValue::Str(x + seq!['\\'] + y), escaped_literal(x, '\\', y).len() as int),
        read_at(escaped_literal(x, '"', y), 0)
            == Parsed::Done(EdnValue::Str(x + seq!['"'] + y), escaped_literal(x, '"', y).len() as int),
{
    lemma_escaped_literal(x, 't', y);
    lemma_escaped_literal(x, 'r', y);
    lemma_escaped_literal(x, 'n', y);
    lemma_escaped_literal(x, 'b', y);
    lemma_escaped_literal(x, 'f', y);
    lemma_escaped_literal(x, '\\', y);
    lemma_escaped_literal(x, '"', y);
}

/// Metadata is dropped: where `^` is followed by a form that reads as a symbol, a string,
/// a keyword or a map, reading from the `^` gives what reading after that form gives.
pub proof fn law_metadata_dropped(s: Seq<char>, p: int)
    requires
        0 <= p < s.len(),
        s[p] == '^',
        read_at(s, p + 1) matches Parsed::Done(m, r) && (m is Symbol || m is Str || m is Keyword
            || m is MapOf) && p + 1 <= r <= s.len(),
    ensures
        read_at(s, p) == read_at(s, read_at(s, p + 1)->Done_1),
{
    assert(!whitespace_char('^'));
    assert(skip_ws(s, p) == p);
    assert(!decimal_char('^'));
    assert(macro_char('^'));
    assert(macro_at(s, p + 1, '^') == meta_at(s, p + 1));
}

#[verifier::spinoff_prover]
#[verifier::rlimit(100)]
proof fn lemma_exponent_form(m: Seq<char>, marker: Seq<char>, k: Seq<char>, dec: bool)
    requires
        m.len() > 0 && all_decimal(m),
        k.len() > 0 && all_decimal(k),
        radix_value(k, 10)->0 <= i64::MAX,
        marker == seq!['e'] || marker == seq!['E'] || marker == seq!['e', '+'] || marker == seq!['e', '-'],
    ensures
        ({
            let t = if dec { m + marker + k + seq!['M'] } else { m + marker + k };
            let mv = radix_value(m, 10)->0 as int;
            let kv = radix_value(k, 10)->0 as int;
            let sc = if marker == seq!['e', '-'] { kv } else { -kv };
            number_value(t) == Some(
                if dec { EdnValue::Decimal(mv, sc) } else { EdnValue::Float(float_model(mv, sc)) },
            )
        }),
{
    let core = m + marker + k;
    let t = if dec { core + seq!['M'] } else { core };
    lemma_radix_decimal(m);
    lemma_radix_decimal(k);
    assert(decimal_char(m[0]));
    assert(t[0] == m[0]);
    assert(sign_length(t) == 0);
    assert(t.skip(0) =~= t);
    let i = m.len() as int;
    assert(core[i] == marker[0]);
    assert(!all_decimal(t)) by { assert(t[i] == marker[0]); }
    assert(t.len() >= 3);
    assert(t != seq!['0'] && t != seq!['0', 'N']) by { assert(t.len() >= 3); }
    assert(t.last() != 'N') by {
        if dec { assert(t.last() == 'M'); } else { assert(t.last() == k.last()); assert(decimal_char(k[k.len() - 1])); }
    }
    assert(integer_body(t) is None) by {
        if m.len() >= 2 {
            assert(t[1] == m[1]);
            assert(decimal_char(m[1]));
        } else {
            assert(t[1] == marker[0]);
        }
        if t[0] == '0' {
            assert(!all_decimal(t.skip(1))) by { assert(t.skip(1)[i - 1] == marker[0]); }
        }
    }
    assert(radix_body(t) is None) by {
        if m.len() >= 2 {
            assert(t[1] == m[1]);
            if m.len() >= 3 { assert(t[2] == m[2]); assert(decimal_char(m[2])); } else { assert(t[2] == marker[0]); }
        } else {
            assert(t[1] == marker[0]);
        }
    }
    // the decimal body
    assert forall|x: int| 0 <= x < i implies decimal_char(#[trigger] core[x]) by {
        assert(core[x] == m[x]);
    }
    lemma_digits_end(core, 0, i);
    assert(core.take(i) =~= m);
    let signed = marker.len() == 2;
    let kk = if signed { i + 2 } else { i + 1 };
    assert(core.skip(kk) =~= k);
    if signed {
        assert(core[i + 1] == marker[1]);
    } else {
        assert(core[i + 1] == k[0]);
        assert(decimal_char(k[0]));
    }
    let kv = radix_value(k, 10)->0 as int;
    assert(exponent_part(core, i) == Some(if marker == seq!['e', '-'] { -kv } else { kv }));
    assert(decimal_parts(core) == Some((m, 0int, if marker == seq!['e', '-'] { -kv } else { kv })));
    if dec {
        assert(t.drop_last() =~= core);
    }
    assert(fraction_value(t) is Some);
}

/// An exponent scales by a power of ten: `m` then `e`, `E` or `e+` and the digits `k` is
/// `m × 10^k`, with `e-` it is `m × 10^-k`. With `M` that is the big decimal of unscaled
/// integer `m` and scale `-k` (`k` with `e-`); without it the float of that value, the
/// same with `e+` as with `e`.
#[verifier::spinoff_prover]
#[verifier::rlimit(60)]
pub proof fn law_exponents(m: Seq<char>, k: Seq<char>)
    requires
        m.len() > 0 && all_decimal(m),
        k.len() > 0 && all_decimal(k),
        radix_value(k, 10)->0 <= i64::MAX,
    ensures
        number_value(m + seq!['e'] + k + seq!['M'])
            == Some(EdnValue::Decimal(radix_value(m, 10)->0 as int, -(radix_value(k, 10)->0 as int))),
        number_value(m + seq!['E'] + k + seq!['M'])
            == Some(EdnValue::Decimal(radix_value(m, 10)->0 as int, -(radix_value(k, 10)->0 as int))),
        number_value(m + seq!['e', '+'] + k + seq!['M'])
            == Some(EdnValue::Decimal(radix_value(m, 10)->0 as int, -(radix_value(k, 10)->0 as int))),
        number_value(m + seq!['e', '-'] + k + seq!['M'])
            == Some(EdnValue::Decimal(radix_value(m, 10)->0 as int, radix_value(k, 10)->0 as int)),
        number_value(m + seq!['e', '+'] + k) == number_value(m + seq!['e'] + k),
        number_value(m + seq!['e'] + k)
            == Some(EdnValue::Float(float_model(radix_value(m, 10)->0 as int, -(radix_value(k, 10)->0 as int)))),
        number_value(m + seq!['e', '-'] + k)
            == Some(EdnValue::Float(float_model(radix_value(m, 10)->0 as int, radix_value(k, 10)->0 as int))),
{
    lemma_exponent_form(m, seq!['e'], k, true);
    lemma_exponent_form(m, seq!['E'], k, true);
    lemma_exponent_form(m, seq!['e', '+'], k, true);
    lemma_exponent_form(m, seq!['e', '-'], k, true);
    lemma_exponent_form(m, seq!['e'], k, false);
    lemma_exponent_form(m, seq!['e', '+'], k, false);
    lemma_exponent_form(m, seq!['e', '-'], k, false);
    assert(seq!['e', '+'] != seq!['e', '-']);
    assert(seq!['e'] != seq!['e', '-']);
    assert(seq!['E'] != seq!['e', '-']);
}

/// Metadata after `#^` is dropped as after `^`.
pub proof fn law_dispatch_metadata_dropped(s: Seq<char>, p: int)
    requires
        0 <= p,
        p + 1 < s.len(),
        s[p] == '#',
        s[p + 1] == '^',
        read_at(s, p + 2) matches Parsed::Done(m, r) && (m is Symbol || m is Str || m is Keyword
            || m is MapOf) && p + 2 <= r <= s.len(),
    ensures
        read_at(s, p) == read_at(s, read_at(s, p + 2)->Done_1),
{
    assert(!whitespace_char('#'));
    assert(skip_ws(s, p) == p);
    assert(!decimal_char('#'));
    assert(macro_char('#'));
    assert(macro_at(s, p + 1, '#') == dispatch_at(s, p + 1));
    assert(dispatch_at(s, p + 1) == meta_at(s, p + 2));
}

/// A discarded form is skipped: where `#_` is followed by a form that reads, reading from
/// the `#` gives what reading after that form gives.
pub proof fn law_discarded_form(s: Seq<char>, p: int)
    requires
        0 <= p,
        p + 1 < s.len(),
        s[p] == '#',
        s[p + 1] == '_',
        read_at(s, p + 2) matches Parsed::Done(_, r) && p + 2 <= r <= s.len(),
    ensures
        read_at(s, p) == read_at(s, read_at(s, p + 2)->Done_1),
{
    assert(!whitespace_char('#'));
    assert(skip_ws(s, p) == p);
    assert(!decimal_char('#'));
    assert(macro_char('#'));
    assert(macro_at(s, p + 1, '#') == dispatch_at(s, p + 1));
    assert(dispatch_at(s, p + 1) == discard_at(s, p + 2));
}

proof fn lemma_comment_run(s: Seq<char>, p: int, e: int)
    requires
        0 <= p <= e < s.len(),
        forall|i: int| p <= i < e ==> #[trigger] s[i] != '\n' && s[i] != '\r',
        s[e] == '\n',
    ensures
        comment_end(s, p) == e + 1,
    decreases e - p,
{
    if p < e {
        lemma_comment_run(s, p + 1, e);
    }
}

/// A comment runs to the end of its line: reading `;`, a line without line breaks, a line
/// feed and then more text gives what reading that text gives.
pub proof fn law_comment_skipped(c: Seq<char>, rest: Seq<char>)
    requires
        forall|i: int| 0 <= i < c.len() ==> #[trigger] c[i] != '\n' && c[i] != '\r',
    ensures
        read_at(seq![';'] + c + seq!['\n'] + rest, 0) == read_at(seq![';'] + c + seq!['\n'] + rest, c.len() as int + 2),
{
    let s = seq![';'] + c + seq!['\n'] + rest;
    assert(s[0] == ';');
    assert(!whitespace_char(';'));
    assert(skip_ws(s, 0) == 0);
    assert(!decimal_char(';'));
    assert(macro_char(';'));
    let e: int = c.len() as int + 1;
    assert forall|i: int| 1 <= i < e implies #[trigger] s[i] != '\n' && s[i] != '\r' by {
        assert(s[i] == c[i - 1]);
    }
    assert(s[e] == '\n');
    lemma_comment_run(s, 1, e);
    assert(s[0] == ';');
    assert(macro_at(s, 1, ';') == Parsed::<Option<EdnValue>>::Done(None, e + 1));
    assert(0 < e + 1 <= s.len());
}

proof fn lemma_radix_chars(ds: Seq<char>, radix: nat)
    requires
        radix_value(ds, radix) is Some,
    ensures
        forall|i: int| 0 <= i < ds.len() ==> #[trigger] digit_value(ds[i], radix as u32) is Some,
    decreases ds.len(),
{
    if ds.len() > 0 {
        lemma_radix_chars(ds.drop_last(), radix);
        assert forall|i: int| 0 <= i < ds.len() implies #[trigger] digit_value(ds[i], radix as u32) is Some by {
            if i < ds.len() - 1 {
                assert(ds[i] == ds.drop_last()[i]);
            }
        }
    }
}

/// Hex, octal and radix integers denote the value of their digits: `0x` and hex digits
/// `h` is `h` in base 16, `0` and octal digits `o` is `o` in base 8, the radix `r` (2 to
/// 36, in decimal), `r` and digits `ds` is `ds` in base `r`; an `Int` where the value fits
/// in an `i64`, a big integer where it does not or where `N` follows; `-` negates.
#[verifier::spinoff_prover]
#[verifier::rlimit(100)]
pub proof fn law_integer_bases(h: Seq<char>, o: Seq<char>, r: nat, ds: Seq<char>)
    requires
        h.len() > 0 && radix_value(h, 16) is Some,
        o.len() > 0 && radix_value(o, 8) is Some,
        2 <= r <= 36,
        ds.len() > 0 && radix_value(ds, r) is Some,
    ensures
        radix_value(h, 16)->0 <= i64::MAX ==> number_value(seq!['0', 'x'] + h)
            == Some(EdnValue::Int(radix_value(h, 16)->0 as int)),
        radix_value(h, 16)->0 > i64::MAX ==> number_value(seq!['0', 'x'] + h)
            == Some(EdnValue::BigInt(radix_value(h, 16)->0 as int)),
        number_value(seq!['0', 'x'] + h + seq!['N']) == Some(EdnValue::BigInt(radix_value(h, 16)->0 as int)),
        radix_value(h, 16)->0 <= i64::MAX ==> number_value(seq!['-', '0', 'x'] + h)
            == Some(EdnValue::Int(-(radix_value(h, 16)->0 as int))),
        radix_value(o, 8)->0 <= i64::MAX ==> number_value(seq!['0'] + o)
            == Some(EdnValue::Int(radix_value(o, 8)->0 as int)),
        radix_value(ds, r)->0 <= i64::MAX ==> number_value(nat_text(r) + seq!['r'] + ds)
            == Some(EdnValue::Int(radix_value(ds, r)->0 as int)),
{
    lemma_radix_chars(h, 16);
    lemma_radix_chars(o, 8);
    lemma_radix_chars(ds, r);
    // hex
    let t = seq!['0', 'x'] + h;
    assert(t.skip(0) =~= t);
    assert(t.skip(2) =~= h);
    assert(t != seq!['0']);
    assert(t != seq!['0', 'N']) by { assert(t[1] == 'x'); }
    assert(digit_value(h[h.len() - 1], 16) is Some);
    assert(t.last() == h[h.len() - 1]);
    assert(t.last() != 'N');
    let tn = t + seq!['N'];
    assert(tn.skip(0) =~= tn);
    assert(tn.drop_last() =~= t);
    assert(tn != seq!['0']);
    assert(tn != seq!['0', 'N']) by { assert(tn[1] == 'x'); }
    let tm = seq!['-'] + t;
    assert(tm =~= seq!['-', '0', 'x'] + h);
    assert(tm.skip(1) =~= t);
    assert(tm[0] == '-');
    // octal
    let to = seq!['0'] + o;
    assert(to.skip(0) =~= to);
    assert(to.skip(1) =~= o);
    assert forall|i: int| 0 <= i < o.len() implies decimal_char(#[trigger] o[i]) by {
        assert(digit_value(o[i], 8) is Some);
    }
    assert(all_decimal(o));
    assert(to != seq!['0']);
    assert(o[0] != 'x' && o[0] != 'X') by { assert(digit_value(o[0], 8) is Some); }
    assert(to[1] == o[0]);
    assert(digit_value(o[o.len() - 1], 8) is Some);
    assert(to.last() == o[o.len() - 1]);
    assert(to != seq!['0', 'N']) by { assert(to.last() != 'N'); }
    // radix
    lemma_nat_text_digits(r);
    let rt = nat_text(r);
    let tr = rt + seq!['r'] + ds;
    assert(tr.skip(0) =~= tr);
    assert(rt.len() == 1 || rt.len() == 2) by {
        if r >= 10 {
            assert(nat_text(r) == nat_text(r / 10).push(crate::decimal::digit_char((r % 10) as int)));
            assert(r / 10 < 10);
        }
    }
    let k: int = rt.len() as int;
    assert(tr[0] == rt[0]);
    assert(tr[k] == 'r');
    if k == 2 {
        assert(tr[1] == rt[1]);
    } else {
        assert(!decimal_char(tr[1]));
    }
    assert(tr.take(k) =~= rt);
    assert(tr.skip(k + 1) =~= ds);
    assert(all_decimal(rt));
    lemma_radix_decimal(rt);
    assert(rt[0] != '0');
    assert(tr != seq!['0'] && tr != seq!['0', 'N']) by { assert(tr.len() >= 3); }
    assert(integer_body(tr) is None) by {
        assert(!all_decimal(tr)) by { assert(!decimal_char(tr[k])); }
        if tr.last() == 'N' {
            assert(!all_decimal(tr.drop_last())) by { assert(tr.drop_last()[k] == 'r'); }
        }
    }
    assert(radix_body(tr) == radix_value(ds, r));
}

/// `b` to the power `n`.
spec fn power(b: nat, n: nat) -> nat
    decreases n,
{
    if n == 0 { 1 } else { b * power(b, (n - 1) as nat) }
}

/// `n` digits in `radix` are worth less than `radix^n`.
proof fn lemma_radix_bound(ds: Seq<char>, radix: nat)
    requires
        radix_value(ds, radix) is Some,
        radix >= 1,
    ensures
        radix_value(ds, radix)->0 < power(radix, ds.len()),
    decreases ds.len(),
{
    if ds.len() > 0 {
        let f = ds.drop_last();
        assert(radix_value(f, radix) is Some);
        lemma_radix_bound(f, radix);
        let v = radix_value(f, radix)->0;
        let d = digit_value(ds.last(), radix as u32)->0;
        assert(d < radix);
        let p = power(radix, f.len());
        assert(power(radix, ds.len()) == radix * p);
        assert(v * radix + d < radix * p) by (nonlinear_arith)
            requires v < p, d < radix;
    }
}

proof fn lemma_radix_prefix(ds: Seq<char>, radix: nat, k: int)
    requires
        0 <= k <= ds.len(),
        radix >= 1,
        radix_value(ds, radix) is Some,
    ensures
        radix_value(ds.take(k), radix) is Some,
        radix_value(ds.take(k), radix)->0 <= radix_value(ds, radix)->0,
    decreases ds.len() - k,
{
    if k == ds.len() {
        assert(ds.take(k) =~= ds);
    } else {
        lemma_radix_prefix(ds, radix, k + 1);
        assert(ds.take(k + 1).drop_last() =~= ds.take(k));
        let a = radix_value(ds.take(k), radix);
        assert(a is Some);
        let v = a->0;
        assert(v * radix >= v) by (nonlinear_arith) requires radix >= 1;
    }
}

/// Reading the digits `h` of a character code, `i` of them read already.
proof fn lemma_code_run(s: Seq<char>, k: int, i: int, h: Seq<char>, base: u32, exact: bool)
    requires
        1 <= i <= h.len(),
        2 <= base <= 16,
        0 <= k,
        k + (h.len() - i) <= s.len(),
        s.subrange(k, k + (h.len() - i)) == h.skip(i),
        radix_value(h, base as nat) is Some,
        radix_value(h, base as nat)->0 <= u32::MAX,
    ensures
        code_digits(s, k, i, h.len() as int, base, radix_value(h.take(i), base as nat)->0, exact)
            == code_finish(h.len() as int, h.len() as int, radix_value(h, base as nat)->0, exact, k + (h.len() - i)),
    decreases h.len() - i,
{
    lemma_radix_prefix(h, base as nat, i);
    if i == h.len() {
        assert(h.take(i) =~= h);
    } else {
        lemma_radix_chars(h, base as nat);
        let c = h[i];
        assert(s[k] == h.skip(i)[0]);
        assert(s[k] == c);
        assert(digit_value(c, base) is Some);
        assert(!whitespace_char(c) && !macro_char(c)) by {
            assert(('0' <= c && c <= '9') || ('a' <= c && c <= 'z') || ('A' <= c && c <= 'Z'));
        }
        assert(h.take(i + 1).drop_last() =~= h.take(i));
        assert(h.take(i + 1).last() == c);
        lemma_radix_prefix(h, base as nat, i + 1);
        assert(s.subrange(k + 1, k + 1 + (h.len() - (i + 1))) =~= h.skip(i + 1)) by {
            assert forall|j: int| 0 <= j < h.len() - (i + 1) implies #[trigger] s.subrange(k + 1, k + 1 + (h.len() - (i + 1)))[j] == h.skip(i + 1)[j] by {
                assert(s.subrange(k, k + (h.len() - i))[j + 1] == h.skip(i)[j + 1]);
                assert(s.subrange(k, k + (h.len() - i))[j + 1] == s[k + j + 1]);
                assert(s.subrange(k + 1, k + 1 + (h.len() - (i + 1)))[j] == s[k + 1 + j]);
                assert(h.skip(i)[j + 1] == h[i + j + 1]);
                assert(h.skip(i + 1)[j] == h[i + 1 + j]);
            }
        }
        lemma_code_run(s, k + 1, i + 1, h, base, exact);
    }
}

/// The string literal of `x`, a backslash and `code`, then `y`.
pub open spec fn code_literal(x: Seq<char>, code: Seq<char>, y: Seq<char>) -> Seq<char> {
    seq!['"'] + x + seq!['\\'] + code + y + seq!['"']
}

/// Code escapes in a string literal stand for the character of their code: `\u` and four
/// hex digits `h` for the character whose code point is `h` in base 16, a backslash and
/// three octal digits `o` (at most `377`) for the character whose code is `o` in base 8.
#[verifier::spinoff_prover]
#[verifier::rlimit(100)]
pub proof fn law_string_code_escapes(x: Seq<char>, h: Seq<char>, o: Seq<char>, y: Seq<char>)
    requires
        literal_run(x),
        literal_run(y),
        h.len() == 4 && radix_value(h, 16) is Some,
        o.len() == 3 && radix_value(o, 8) is Some,
    ensures
        scalar_value(radix_value(h, 16)->0 as int) ==> read_at(code_literal(x, seq!['u'] + h, y), 0)
            == Parsed::Done(
                EdnValue::Str(x + seq![char_of(radix_value(h, 16)->0 as int)] + y),
                code_literal(x, seq!['u'] + h, y).len() as int,
            ),
        radix_value(o, 8)->0 <= 0o377 ==> read_at(code_literal(x, o, y), 0)
            == Parsed::Done(
                EdnValue::Str(x + seq![char_of(radix_value(o, 8)->0 as int)] + y),
                code_literal(x, o, y).len() as int,
            ),
{
    lemma_radix_chars(h, 16);
    lemma_radix_chars(o, 8);
    lemma_radix_prefix(h, 16, 0);
    lemma_radix_prefix(o, 8, 0);
    assert(h.take(4) =~= h);
    assert(o.take(3) =~= o);
    lemma_radix_bound(h, 16);
    lemma_radix_bound(o, 8);
    reveal_with_fuel(power, 5);
    assert(power(16, 4) == 65536);
    assert(power(8, 3) == 512);
    if scalar_value(radix_value(h, 16)->0 as int) {
        let s = code_literal(x, seq!['u'] + h, y);
        let n = s.len() as int;
        let i: int = x.len() as int + 1;
        assert(s[0] == '"');
        assert(!whitespace_char('"'));
        assert(skip_ws(s, 0) == 0);
        assert(s.subrange(1, i) =~= x);
        lemma_literal_run(s, 1, x, Seq::empty());
        assert(Seq::<char>::empty() + x =~= x);
        assert(s[i] == '\\');
        assert(s[i + 1] == 'u');
        assert(s[i + 2] == h[0]);
        assert(digit_value(h[0], 16) is Some);
        assert(h.take(1).drop_last() =~= Seq::<char>::empty());
        assert(h.take(1).last() == h[0]);
        assert(radix_value(Seq::<char>::empty(), 16) == Some(0nat));
        assert(radix_value(h.take(1), 16) == Some(digit_value(h[0], 16)->0 as nat));
        assert(s.subrange(i + 3, i + 6) =~= h.skip(1));
        lemma_code_run(s, i + 3, 1, h, 16, true);
        let v = radix_value(h, 16)->0 as int;
        assert(code_at(s, i + 3, h[0], 16, 4, true) == Parsed::Done(char_of(v), i + 6));
        let acc = x.push(char_of(v));
        assert(string_body(s, i, x) == string_body(s, i + 6, acc));
        assert(s.subrange(i + 6, i + 6 + y.len()) =~= y);
        lemma_literal_run(s, i + 6, y, acc);
        assert(s[n - 1] == '"');
        assert(acc + y =~= x + seq![char_of(v)] + y);
        assert(macro_at(s, 1, '"') == string_at(s, 1));
    }
    if radix_value(o, 8)->0 <= 0o377 {
        let s = code_literal(x, o, y);
        let n = s.len() as int;
        let i: int = x.len() as int + 1;
        assert(s[0] == '"');
        assert(!whitespace_char('"'));
        assert(skip_ws(s, 0) == 0);
        assert(s.subrange(1, i) =~= x);
        lemma_literal_run(s, 1, x, Seq::empty());
        assert(Seq::<char>::empty() + x =~= x);
        assert(s[i] == '\\');
        assert(s[i + 1] == o[0]);
        assert(digit_value(o[0], 8) is Some);
        assert(decimal_char(o[0]));
        assert(o.take(1).drop_last() =~= Seq::<char>::empty());
        assert(o.take(1).last() == o[0]);
        assert(radix_value(Seq::<char>::empty(), 8) == Some(0nat));
        assert(radix_value(o.take(1), 8) == Some(digit_value(o[0], 8)->0 as nat));
        assert(s.subrange(i + 2, i + 4) =~= o.skip(1));
        lemma_code_run(s, i + 2, 1, o, 8, false);
        let v = radix_value(o, 8)->0 as int;
        assert(scalar_value(v));
        assert(code_at(s, i + 2, o[0], 8, 3, false) == Parsed::Done(char_of(v), i + 4));
        assert(char_of(v) as u32 == v) by {
            assert((v as u32) as int == v);
        }
        let acc = x.push(char_of(v));
        assert(string_body(s, i, x) == string_body(s, i + 4, acc));
        assert(s.subrange(i + 4, i + 4 + y.len()) =~= y);
        lemma_literal_run(s, i + 4, y, acc);
        assert(s[n - 1] == '"');
        assert(acc + y =~= x + seq![char_of(v)] + y);
        assert(macro_at(s, 1, '"') == string_at(s, 1));
    }
}

#[verifier::spinoff_prover]
#[verifier::rlimit(100)]
proof fn lemma_point_form(m: Seq<char>, f: Seq<char>, neg: bool, dec: bool)
    requires
        m.len() > 0 && all_decimal(m),
        all_decimal(f),
        f.len() <= i64::MAX,
    ensures
        ({
            let core = m + seq!['.'] + f;
            let body = if dec { core + seq!['M'] } else { core };
            let t = if neg { seq!['-'] + body } else { body };
            let v = radix_value(m + f, 10)->0 as int;
            let u = if neg { -v } else { v };
            number_value(t) == Some(
                if dec { EdnValue::Decimal(u, f.len() as int) } else { EdnValue::Float(float_model(u, f.len() as int)) },
            )
        }),
{
    let core = m + seq!['.'] + f;
    let body = if dec { core + seq!['M'] } else { core };
    let t = if neg { seq!['-'] + body } else { body };
    let mf = m + f;
    assert(all_decimal(mf)) by {
        assert forall|x: int| 0 <= x < mf.len() implies decimal_char(#[trigger] mf[x]) by {
            if x < m.len() { assert(mf[x] == m[x]); } else { assert(mf[x] == f[x - m.len()]); }
        }
    }
    lemma_radix_decimal(mf);
    assert(decimal_char(m[0]));
    let o: int = if neg { 1 } else { 0 };
    assert(t.skip(o) =~= body);
    assert(sign_length(t) == o) by {
        if !neg { assert(t[0] == m[0]); } else { assert(t[0] == '-'); }
    }
    let i = m.len() as int;
    assert(body[i] == '.');
    assert(body[0] == m[0]);
    assert(!all_decimal(body)) by { assert(!decimal_char(body[i])); }
    assert(body.len() >= 2);
    assert(body != seq!['0'] && body != seq!['0', 'N']) by {
        if i == 1 { assert(body[1] == '.'); } else { assert(body[1] == m[1]); assert(decimal_char(m[1])); }
    }
    assert(body.last() != 'N') by {
        if dec { assert(body.last() == 'M'); } else if f.len() > 0 {
            assert(body.last() == f[f.len() - 1]);
            assert(decimal_char(f[f.len() - 1]));
        } else {
            assert(body.last() == '.');
        }
    }
    assert(integer_body(body) is None) by {
        if i >= 2 {
            assert(body[1] == m[1]);
            assert(decimal_char(m[1]));
        } else {
            assert(body[1] == '.');
        }
        if body[0] == '0' {
            assert(!all_decimal(body.skip(1))) by { assert(body.skip(1)[i - 1] == '.'); }
        }
    }
    assert(radix_body(body) is None) by {
        if i >= 2 {
            assert(body[1] == m[1]);
            if i >= 3 { assert(body[2] == m[2]); assert(decimal_char(m[2])); } else { assert(body[2] == '.'); }
        } else {
            assert(body[1] == '.');
        }
    }
    assert forall|x: int| 0 <= x < i implies decimal_char(#[trigger] core[x]) by {
        assert(core[x] == m[x]);
    }
    lemma_digits_end(core, 0, i);
    assert forall|x: int| i + 1 <= x < core.len() implies decimal_char(#[trigger] core[x]) by {
        assert(core[x] == f[x - i - 1]);
    }
    lemma_digits_end(core, i + 1, core.len() as int);
    assert(core.take(i) + core.subrange(i + 1, core.len() as int) =~= mf);
    assert(exponent_part(core, core.len() as int) == Some(0int));
    assert(decimal_parts(core) == Some((mf, f.len() as int, 0int)));
    if dec {
        assert(body.drop_last() =~= core);
    }
}

/// A decimal point places the digits after it below the units: `m.f` (digits `m`, `f`) is
/// the number whose unscaled integer is `m` and `f` written together and whose scale is the
/// number of digits of `f`; with `M` a big decimal, without it a float; `-` negates.
pub proof fn law_decimal_point(m: Seq<char>, f: Seq<char>)
    requires
        m.len() > 0 && all_decimal(m),
        all_decimal(f),
        f.len() <= i64::MAX,
    ensures
        number_value(m + seq!['.'] + f + seq!['M'])
            == Some(EdnValue::Decimal(radix_value(m + f, 10)->0 as int, f.len() as int)),
        number_value(seq!['-'] + (m + seq!['.'] + f + seq!['M']))
            == Some(EdnValue::Decimal(-(radix_value(m + f, 10)->0 as int), f.len() as int)),
        number_value(m + seq!['.'] + f)
            == Some(EdnValue::Float(float_model(radix_value(m + f, 10)->0 as int, f.len() as int))),
        number_value(seq!['-'] + (m + seq!['.'] + f))
            == Some(EdnValue::Float(float_model(-(radix_value(m + f, 10)->0 as int), f.len() as int))),
{
    lemma_point_form(m, f, false, true);
    lemma_point_form(m, f, true, true);
    lemma_point_form(m, f, false, false);
    lemma_point_form(m, f, true, false);
}

/// The value of digits is the first digit's worth and the rest's value.
proof fn lemma_radix_front(ds: Seq<char>, radix: nat)
    requires
        ds.len() > 0,
        2 <= radix <= 36,
        radix_value(ds, radix) is Some,
    ensures
        radix_value(ds.drop_first(), radix) is Some,
        digit_value(ds[0], radix as u32) is Some,
        radix_value(ds, radix)->0 == digit_value(ds[0], radix as u32)->0 * power(radix, (ds.len() - 1) as nat)
            + radix_value(ds.drop_first(), radix)->0,
    decreases ds.len(),
{
    lemma_radix_chars(ds, radix);
    if ds.len() == 1 {
        assert(ds.drop_first() =~= Seq::<char>::empty());
        assert(ds.drop_last() =~= Seq::<char>::empty());
        assert(ds.last() == ds[0]);
        assert(power(radix, 0) == 1);
        assert(radix_value(Seq::<char>::empty(), radix) == Some(0nat));
        let d0 = digit_value(ds[0], radix as u32)->0 as nat;
        assert(radix_value(ds, radix) == Some(0nat * radix + d0));
        assert(d0 * 1 + 0 == d0);
    } else {
        let f = ds.drop_last();
        assert(radix_value(f, radix) is Some);
        lemma_radix_front(f, radix);
        assert(f[0] == ds[0]);
        assert(f.drop_first() =~= ds.drop_first().drop_last());
        assert(ds.drop_first().last() == ds.last());
        let r = ds.drop_first();
        assert(radix_value(r, radix) == match radix_value(r.drop_last(), radix) {
            None => None,
            Some(v) => match digit_value(r.last(), radix as u32) { None => None, Some(d) => Some(v * radix + (d as nat)) },
        });
        let d0 = digit_value(ds[0], radix as u32)->0 as nat;
        let p = power(radix, (f.len() - 1) as nat);
        let a = radix_value(f.drop_first(), radix)->0;
        assert(digit_value(ds.last(), radix as u32) is Some) by {
            assert(ds.last() == ds[ds.len() - 1]);
        }
        let dl = digit_value(ds.last(), radix as u32)->0 as nat;
        assert(power(radix, (ds.len() - 1) as nat) == radix * p);
        assert(r.drop_last() =~= f.drop_first());
        assert(radix_value(r, radix)->0 == a * radix + dl);
        assert(radix_value(ds, radix)->0 == radix_value(f, radix)->0 * radix + dl);
        assert(radix_value(f, radix)->0 == d0 * p + a);
        assert((d0 * p + a) * radix + dl == d0 * (radix * p) + (a * radix + dl)) by (nonlinear_arith);
        assert(radix_value(ds, radix)->0 == d0 * power(radix, (ds.len() - 1) as nat) + radix_value(r, radix)->0);
    }
}

/// Reading the code digits of a character token, going on from the code `uc`.
proof fn lemma_token_digits(ds: Seq<char>, base: u32, uc: nat)
    requires
        2 <= base <= 16,
        radix_value(ds, base as nat) is Some,
        uc * power(base as nat, ds.len()) + radix_value(ds, base as nat)->0 <= u32::MAX,
    ensures
        ({
            let w = uc * power(base as nat, ds.len()) + radix_value(ds, base as nat)->0;
            token_code_digits(ds, base, uc) == Some(Ok::<Option<char>, Seq<char>>(
                if scalar_value(w as int) { Some(char_of(w as int)) } else { None },
            ))
        }),
    decreases ds.len(),
{
    if ds.len() == 0 {
        assert(power(base as nat, 0) == 1);
        assert(radix_value(ds, base as nat) == Some(0nat));
        assert(uc * 1 == uc);
    } else {
        lemma_radix_front(ds, base as nat);
        let d = digit_value(ds[0], base)->0 as nat;
        let r = ds.drop_first();
        let p = power(base as nat, r.len());
        assert(power(base as nat, ds.len()) == base * p);
        let a = radix_value(r, base as nat)->0;
        assert(p >= 1) by { lemma_power_positive(base as nat, r.len()); }
        assert(uc * (base * p) + (d * p + a) == (uc * base + d) * p + a) by (nonlinear_arith);
        assert((uc * base + d) * p >= uc * base + d) by (nonlinear_arith) requires p >= 1;
        lemma_token_digits(r, base, (uc * base + d) as nat);
    }
}

proof fn lemma_power_positive(b: nat, n: nat)
    requires
        b >= 1,
    ensures
        power(b, n) >= 1,
    decreases n,
{
    if n > 0 {
        lemma_power_positive(b, (n - 1) as nat);
        assert(b * power(b, (n - 1) as nat) >= 1) by (nonlinear_arith)
            requires b >= 1, power(b, (n - 1) as nat) >= 1;
    }
}

/// A character token read from the start of `s`, which holds `\` and the token alone.
proof fn lemma_character_token(t: Seq<char>)
    requires
        t.len() >= 1,
        forall|i: int| 1 <= i < t.len() ==> !whitespace_char(#[trigger] t[i]) && !terminating_macro_char(t[i])
            && !non_constituent_char(t[i]),
    ensures
        read_at(seq!['\\'] + t, 0) == match character_value(t) {
            Ok(c) => Parsed::Done(EdnValue::Char(c), t.len() as int + 1),
            Err(m) => Parsed::Fail(m, t.len() as int + 1),
        },
{
    let s = seq!['\\'] + t;
    assert(s[0] == '\\');
    assert(!whitespace_char('\\'));
    assert(skip_ws(s, 0) == 0);
    assert(!decimal_char('\\'));
    assert(macro_char('\\'));
    assert(s[1] == t[0]);
    lemma_token_run(s, 2);
    assert(s.subrange(2, s.len() as int) =~= t.drop_first());
    assert(seq![t[0]] + t.drop_first() =~= t);
    assert(token_at(s, 2, t[0], false) == Parsed::Done(t, s.len() as int));
    assert(macro_at(s, 1, '\\') == character_at(s, 1));
}

proof fn lemma_token_run(s: Seq<char>, p: int)
    requires
        2 <= p <= s.len(),
        forall|i: int| 2 <= i < s.len() ==> !whitespace_char(#[trigger] s[i]) && !terminating_macro_char(s[i])
            && !non_constituent_char(s[i]),
    ensures
        token_stop(s, p) == s.len(),
    decreases s.len() - p,
{
    if p < s.len() {
        lemma_token_run(s, p + 1);
    }
}

/// A character literal names its character: a backslash and any one character is that
/// character; `\u` and four hex digits `h` is the character whose code point is `h` in base
/// 16; `\o` and three octal digits `o` (at most `377`) the one whose code is `o` in base 8.
#[verifier::spinoff_prover]
#[verifier::rlimit(100)]
pub proof fn law_character_literals(c: char, h: Seq<char>, o: Seq<char>)
    requires
        h.len() == 4 && radix_value(h, 16) is Some,
        o.len() == 3 && radix_value(o, 8) is Some,
    ensures
        read_at(seq!['\\', c], 0) == Parsed::Done(EdnValue::Char(c), 2),
        scalar_value(radix_value(h, 16)->0 as int) ==> read_at(seq!['\\', 'u'] + h, 0)
            == Parsed::Done(EdnValue::Char(char_of(radix_value(h, 16)->0 as int)), 6),
        radix_value(o, 8)->0 <= 0o377 ==> read_at(seq!['\\', 'o'] + o, 0)
            == Parsed::Done(EdnValue::Char(char_of(radix_value(o, 8)->0 as int)), 5),
{
    lemma_character_token(seq![c]);
    assert(seq!['\\'] + seq![c] =~= seq!['\\', c]);
    lemma_radix_chars(h, 16);
    lemma_radix_chars(o, 8);
    lemma_radix_bound(h, 16);
    lemma_radix_bound(o, 8);
    reveal_with_fuel(power, 5);
    assert(power(16, 4) == 65536);
    assert(power(8, 3) == 512);
    reveal_strlit("newline");
    reveal_strlit("space");
    reveal_strlit("tab");
    reveal_strlit("backspace");
    reveal_strlit("formfeed");
    reveal_strlit("return");
    let th = seq!['u'] + h;
    assert forall|i: int| 1 <= i < th.len() implies !whitespace_char(#[trigger] th[i]) && !terminating_macro_char(th[i])
        && !non_constituent_char(th[i]) by {
        assert(th[i] == h[i - 1]);
        assert(digit_value(h[i - 1], 16) is Some);
    }
    lemma_character_token(th);
    assert(seq!['\\'] + th =~= seq!['\\', 'u'] + h);
    assert(th.skip(1) =~= h);
    lemma_token_digits(h, 16, 0);
    assert(th != "space"@) by { assert(th[0] != "space"@[0]); }
    let to = seq!['o'] + o;
    assert forall|i: int| 1 <= i < to.len() implies !whitespace_char(#[trigger] to[i]) && !terminating_macro_char(to[i])
        && !non_constituent_char(to[i]) by {
        assert(to[i] == o[i - 1]);
        assert(digit_value(o[i - 1], 8) is Some);
    }
    lemma_character_token(to);
    assert(seq!['\\'] + to =~= seq!['\\', 'o'] + o);
    assert(to.skip(1) =~= o);
    lemma_token_digits(o, 8, 0);
    assert(to != "tab"@) by { assert(to[0] != "tab"@[0]); }
}

/// A ratio is written as its numerator, `/` and its denominator: for digits `n` and `d`
/// the terms are their values, the numerator negated after a `-`; with a zero denominator
/// the text is no number.
#[verifier::spinoff_prover]
#[verifier::rlimit(60)]
pub proof fn law_ratio_terms(n: Seq<char>, d: Seq<char>)
    requires
        n.len() > 0 && all_decimal(n),
        d.len() > 0 && all_decimal(d),
    ensures
        ratio_terms(n + seq!['/'] + d) == Some((radix_value(n, 10)->0 as int, radix_value(d, 10)->0 as int)),
        ratio_terms(seq!['-'] + (n + seq!['/'] + d))
            == Some((-(radix_value(n, 10)->0 as int), radix_value(d, 10)->0 as int)),
        radix_value(d, 10)->0 == 0 ==> number_value(n + seq!['/'] + d) is None,
{
    let t = n + seq!['/'] + d;
    lemma_ratio_body(n, d);
    assert(decimal_char(n[0]));
    assert(t[0] == n[0]);
    assert(sign_length(t) == 0);
    assert(t.skip(0) =~= t);
    let tm = seq!['-'] + t;
    assert(sign_length(tm) == 1);
    assert(tm.skip(1) =~= t);
    if radix_value(d, 10)->0 == 0 {
        let i = n.len() as int;
        assert(t[i] == '/');
        assert(!all_decimal(t)) by { assert(!decimal_char(t[i])); }
        assert(t.last() == d[d.len() - 1]);
        assert(decimal_char(d[d.len() - 1]));
        assert(t != seq!['0'] && t != seq!['0', 'N']) by { assert(t.len() >= 3); }
        assert(integer_body(t) is None) by {
            if i >= 2 { assert(t[1] == n[1]); assert(decimal_char(n[1])); } else { assert(t[1] == '/'); }
            if t[0] == '0' {
                assert(!all_decimal(t.skip(1))) by { assert(t.skip(1)[i - 1] == '/'); }
            }
        }
        assert(radix_body(t) is None) by {
            if i >= 2 {
                assert(t[1] == n[1]);
                if i >= 3 { assert(t[2] == n[2]); assert(decimal_char(n[2])); } else { assert(t[2] == '/'); }
            } else {
                assert(t[1] == '/');
            }
        }
        assert forall|x: int| 0 <= x < i implies decimal_char(#[trigger] t[x]) by {
            assert(t[x] == n[x]);
        }
        lemma_digits_end(t, 0, i);
        assert(decimal_parts(t) is None);
    }
}

proof fn lemma_ratio_body(n: Seq<char>, d: Seq<char>)
    requires
        n.len() > 0 && all_decimal(n),
        d.len() > 0 && all_decimal(d),
    ensures
        crate::number::ratio_body(n + seq!['/'] + d) == Some((radix_value(n, 10)->0, radix_value(d, 10)->0)),
        radix_value(n, 10) is Some,
        radix_value(d, 10) is Some,
{
    let t = n + seq!['/'] + d;
    let i = n.len() as int;
    lemma_radix_decimal(n);
    lemma_radix_decimal(d);
    assert forall|x: int| 0 <= x < i implies decimal_char(#[trigger] t[x]) by {
        assert(t[x] == n[x]);
    }
    assert(t[i] == '/');
    lemma_digits_end(t, 0, i);
    assert(t.take(i) =~= n);
    assert(t.skip(i + 1) =~= d);
}

/// A ratio prints as its terms and `R`: without the `R`, the text of a ratio whose
/// denominator is not one reads (as a ratio's text) as its numerator and denominator, and
/// that of one whose denominator is one reads as the numerator.
#[verifier::spinoff_prover]
#[verifier::rlimit(60)]
pub proof fn law_ratio_text(p: int, q: int)
    requires
        q >= 1,
    ensures
        edn_text(EdnValue::Ratio(p, q)).last() == 'R',
        q > 1 ==> ratio_terms(edn_text(EdnValue::Ratio(p, q)).drop_last()) == Some((p, q)),
        q == 1 && i64::MIN <= p <= i64::MAX ==> number_value(edn_text(EdnValue::Ratio(p, q)).drop_last())
            == Some(EdnValue::Int(p)),
{
    let t = edn_text(EdnValue::Ratio(p, q));
    assert(t.drop_last() =~= crate::display::ratio_text(p, q));
    if q == 1 && i64::MIN <= p <= i64::MAX {
        lemma_int_text(p);
    }
    if q > 1 {
        let m: nat = if p < 0 { (-p) as nat } else { p as nat };
        lemma_nat_text_digits(m);
        lemma_nat_text_digits(q as nat);
        let a = nat_text(m);
        let b = nat_text(q as nat);
        assert(all_decimal(a));
        assert(all_decimal(b));
        lemma_ratio_body(a, b);
        lemma_radix_decimal(a);
        lemma_radix_decimal(b);
        assert(int_text(q) == b);
        if p < 0 {
            assert(t.drop_last() =~= seq!['-'] + (a + seq!['/'] + b));
            assert(sign_length(t.drop_last()) == 1);
            assert(t.drop_last().skip(1) =~= a + seq!['/'] + b);
        } else {
            assert(t.drop_last() =~= a + seq!['/'] + b);
            assert(decimal_char(a[0]));
            assert(sign_length(t.drop_last()) == 0);
            assert(t.drop_last().skip(0) =~= a + seq!['/'] + b);
        }
    }
}

proof fn lemma_nat_text_shift(m: nat, k: nat)
    requires
        m > 0,
    ensures
        nat_text(m * pow10(k)) == nat_text(m) + zeros(k as int),
    decreases k,
{
    if k == 0 {
        assert(pow10(0) == 1);
        assert(nat_text(m) + zeros(0) =~= nat_text(m));
    } else {
        lemma_nat_text_shift(m, (k - 1) as nat);
        let n = m * pow10((k - 1) as nat);
        crate::bigint::lemma_pow10_positive((k - 1) as nat);
        assert(pow10(k) == 10 * pow10((k - 1) as nat));
        assert(m * pow10(k) == n * 10) by (nonlinear_arith)
            requires pow10(k) == 10 * pow10((k - 1) as nat), n == m * pow10((k - 1) as nat);
        assert(n >= 1) by (nonlinear_arith) requires m >= 1, pow10((k - 1) as nat) >= 1, n == m * pow10((k - 1) as nat);
        assert((n * 10) / 10 == n);
        assert((n * 10) % 10 == 0);
        assert(nat_text(n * 10) == nat_text(n).push(crate::decimal::digit_char(0)));
        assert(zeros(k as int) =~= zeros(k - 1).push('0'));
    }
}

/// A float with no digits after its point prints as the decimal text of the integer it
/// equals: `u × 10^k` for the scale `-k`.
#[verifier::spinoff_prover]
#[verifier::rlimit(60)]
pub proof fn law_integral_float_text(u: int, k: nat)
    requires
        u != 0 || k == 0,
    ensures
        float_text(u, -(k as int)) == int_text(u * pow10(k)),
{
    let m: nat = if u < 0 { (-u) as nat } else { u as nat };
    crate::bigint::lemma_pow10_positive(k);
    if u == 0 {
        assert(pow10(0) == 1);
        assert(nat_text(0) + zeros(0) =~= nat_text(0));
    } else {
        lemma_nat_text_shift(m, k);
        if u < 0 {
            assert(u * pow10(k) == -(m * pow10(k))) by (nonlinear_arith) requires u == -m;
            assert(m * pow10(k) >= 1) by (nonlinear_arith) requires m >= 1, pow10(k) >= 1;
        } else {
            assert(u * pow10(k) == m * pow10(k));
            assert(m * pow10(k) >= 1) by (nonlinear_arith) requires m >= 1, pow10(k) >= 1;
        }
        let d = nat_text(m);
        assert(-(-(k as int)) == k as int);
        if u < 0 {
            assert(float_text(u, -(k as int)) == seq!['-'] + d + zeros(k as int));
            assert(int_text(u * pow10(k)) == seq!['-'] + nat_text((-(u * pow10(k))) as nat));
            assert((-(u * pow10(k))) as nat == m * pow10(k));
        } else {
            assert(float_text(u, -(k as int)) == Seq::<char>::empty() + d + zeros(k as int));
            assert(int_text(u * pow10(k)) == nat_text((u * pow10(k)) as nat));
            assert((u * pow10(k)) as nat == m * pow10(k));
        }
        assert(float_text(u, -(k as int)) =~= int_text(u * pow10(k)));
    }
}

proof fn lemma_simple_parts(x: Seq<char>)
    requires
        simple_name(x),
    ensures
        symbol_parts(x) == Some((None::<Seq<char>>, x)),
{
    assert(x.skip(0) =~= x);
    lemma_simple_captures(x, 0);
    assert(x[0] != ':');
    assert(symbol_captures(x) == Some((None::<(int, int)>, (0int, x.len() as int))));
    assert(x.subrange(0, x.len() as int) =~= x);
}

proof fn lemma_qualified_parts(y: Seq<char>, x: Seq<char>)
    requires
        simple_name(y),
        simple_name(x),
    ensures
        symbol_parts(y + seq!['/'] + x) == Some((Some(y + seq!['/']), x)),
{
    let s = y + seq!['/'] + x;
    let at = y.len() as int;
    assert(s[at] == '/');
    assert(s.subrange(0, at) =~= y);
    assert(s.skip(at + 1) =~= x);
    lemma_qualified_captures(s, 0, at);
    assert(s[0] == y[0]);
    assert(y[0] != ':');
    assert(s.subrange(0, at + 1) =~= y + seq!['/']);
    assert(s.subrange(at + 1, s.len() as int) =~= x);
}

/// In a namespaced map a keyword or symbol key with a simple name gets the map's
/// namespace, one in the namespace `_` loses its namespace, one in any other namespace
/// keeps it, and keys of other kinds stay as they are.
pub proof fn law_namespaced_keys(x: Seq<char>, y: Seq<char>, n: Seq<char>, v: EdnValue)
    requires
        simple_name(x),
        simple_name(y),
    ensures
        renamed_key(EdnValue::Keyword(x), n) == EdnValue::Keyword(n + seq!['/'] + x),
        renamed_key(EdnValue::Symbol(x), n) == EdnValue::Symbol(n + seq!['/'] + x),
        renamed_key(EdnValue::Keyword(seq!['_', '/'] + x), n) == EdnValue::Keyword(x),
        renamed_key(EdnValue::Symbol(seq!['_', '/'] + x), n) == EdnValue::Symbol(x),
        y != seq!['_'] ==> renamed_key(EdnValue::Keyword(y + seq!['/'] + x), n) == EdnValue::Keyword(y + seq!['/'] + x),
        y != seq!['_'] ==> renamed_key(EdnValue::Symbol(y + seq!['/'] + x), n) == EdnValue::Symbol(y + seq!['/'] + x),
        !(v is Keyword) && !(v is Symbol) ==> renamed_key(v, n) == v,
{
    lemma_simple_parts(x);
    assert("/"@ =~= seq!['/']) by { reveal_strlit("/"); }
    assert("_/"@ =~= seq!['_', '/']) by { reveal_strlit("_/"); }
    let u = seq!['_'];
    assert(simple_name(u)) by {
        assert(u[0] == '_');
    }
    lemma_qualified_parts(u, x);
    assert(u + seq!['/'] + x =~= seq!['_', '/'] + x);
    assert(u + seq!['/'] =~= seq!['_', '/']);
    lemma_qualified_parts(y, x);
    if y != seq!['_'] {
        assert(y + seq!['/'] != seq!['_', '/']) by {
            if y + seq!['/'] == seq!['_', '/'] {
                assert(y.len() == 1);
                assert((y + seq!['/'])[0] == y[0]);
                assert(y =~= seq!['_']);
            }
        }
    }
}

/// A tagged element is its tag and the form after it: where `#` and a letter start a
/// symbol `name` followed by a form `o`, the element is `name` tagging `o` for the tags
/// `inst` and `uuid`, and any other tag is refused.
pub proof fn law_tagged_elements(s: Seq<char>, p: int)
    requires
        0 <= p,
        p + 1 < s.len(),
        s[p] == '#',
        alphabetic(s[p + 1]),
        read_at(s, p + 1) matches Parsed::Done(EdnValue::Symbol(_), r) && p + 1 <= r <= s.len(),
        read_at(s, read_at(s, p + 1)->Done_1) is Done,
    ensures
        ({
            let name = read_at(s, p + 1)->Done_0->Symbol_0;
            let o = read_at(s, read_at(s, p + 1)->Done_1)->Done_0;
            let r2 = read_at(s, read_at(s, p + 1)->Done_1)->Done_1;
            read_at(s, p) == if name == "inst"@ || name == "uuid"@ {
                Parsed::Done(EdnValue::Tagged(name, Box::new(o)), r2)
            } else {
                Parsed::Fail("No reader function for tag "@ + name, r2)
            }
        }),
{
    assert(!whitespace_char('#'));
    assert(skip_ws(s, p) == p);
    assert(!decimal_char('#'));
    assert(macro_char('#'));
    assert(macro_at(s, p + 1, '#') == dispatch_at(s, p + 1));
    let c = s[p + 1];
    assert(c != '#' && c != '^' && c != '{' && c != '<' && c != '_' && c != ':') by {
        assert(alphabetic(c));
        if (c as u32) < 0x80 {
            assert(('a' <= c && c <= 'z') || ('A' <= c && c <= 'Z'));
        }
    }
    assert(dispatch_at(s, p + 1) == tagged_at(s, p + 1));
}

/// `##Inf`, `##-Inf` and `##NaN` are the infinities and NaN: where `##` is followed by a
/// form that reads as one of those symbols, reading from the first `#` gives that float.
pub proof fn law_symbolic_values(s: Seq<char>, p: int)
    requires
        0 <= p,
        p + 1 < s.len(),
        s[p] == '#',
        s[p + 1] == '#',
        read_at(s, p + 2) matches Parsed::Done(EdnValue::Symbol(_), _),
    ensures
        ({
            let x = read_at(s, p + 2)->Done_0->Symbol_0;
            let r = read_at(s, p + 2)->Done_1;
            &&& x == "Inf"@ ==> read_at(s, p) == Parsed::Done(EdnValue::Float(FloatModel::Infinity), r)
            &&& x == "-Inf"@ ==> read_at(s, p) == Parsed::Done(EdnValue::Float(FloatModel::NegInfinity), r)
            &&& x == "NaN"@ ==> read_at(s, p) == Parsed::Done(EdnValue::Float(FloatModel::NaN), r)
        }),
{
    assert(!whitespace_char('#'));
    assert(skip_ws(s, p) == p);
    assert(!decimal_char('#'));
    assert(macro_char('#'));
    assert(macro_at(s, p + 1, '#') == dispatch_at(s, p + 1));
    assert(dispatch_at(s, p + 1) == symbolic_at(s, p + 2));
    reveal_strlit("Inf");
    reveal_strlit("-Inf");
    reveal_strlit("NaN");
}

} // verus!
