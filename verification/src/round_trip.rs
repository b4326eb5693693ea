//! Reading back what is printed: the printed text of a plain value reads as that value.
use vstd::prelude::*;
use crate::bigint::{decimal_value, float_text, float_model, stripped, zeros, lemma_decimal_concat, lemma_zeros_value, pow10};
use crate::compare::printed;
use crate::decimal::{digit_char, nat_text, int_text};
use crate::display::{edn_text, items_text, entries_text, escaped, escaped_char, crlf_to_lf, char_name};
use crate::edn::{EdnValue, FloatModel};
use crate::laws::{law_total_order, strictly_ascending, keys_ascending};
use crate::number::{
    number_stop, number_at, digit_values, number_value, radix_value, integer_body, all_decimal,
    digits_end, decimal_parts, exponent_part, decimal_of_body, fraction_value, radix_body, sign_length,
};
use crate::order::{compare_values, set_insert, set_of, map_insert, map_of, pairs_of};
use crate::reader::{read_at, list_at, macro_at, dispatch_at, tagged_at};
use crate::scalar::{string_body, character_at, character_value};
use crate::symbol::{
    symbol_value, symbol_captures, captures_from, namespace_search, name_end,
    slash_stop, has_double_colon, token_value,
};
use crate::chars::decimal_digit;
use crate::syntax::{
    Parsed, skip_ws, token_at, token_stop, decimal_char, whitespace_char, macro_char,
    terminating_macro_char, non_constituent_char,
};

verus! {

/// The decimal text of a number: its characters are digits, the first is not `0` unless
/// the number is, and the digits' value is the number.
pub proof fn lemma_nat_text_digits(m: nat)
    ensures
        nat_text(m).len() >= 1,
        forall|i: int| 0 <= i < nat_text(m).len() ==> decimal_char(#[trigger] nat_text(m)[i]),
        m > 0 ==> nat_text(m)[0] != '0',
        m == 0 ==> nat_text(m) == seq!['0'],
        decimal_value(digit_values(nat_text(m))) == m,
    decreases m,
{
    let t = nat_text(m);
    if m < 10 {
        assert(digit_values(t) =~= seq![m as u8]);
        assert(seq![m as u8].drop_last() =~= Seq::<u8>::empty());
        assert(decimal_value(seq![m as u8]) == decimal_value(Seq::<u8>::empty()) * 10 + m);
    } else {
        lemma_nat_text_digits(m / 10);
        let f = nat_text(m / 10);
        assert(t == f.push(digit_char((m % 10) as int)));
        assert(digit_values(t) =~= digit_values(f).push((m % 10) as u8));
        assert(digit_values(t).drop_last() =~= digit_values(f));
        assert(digit_values(t).last() == (m % 10) as u8);
        assert(decimal_value(digit_values(t)) == decimal_value(digit_values(f)) * 10 + (m % 10));
        assert(m == (m / 10) * 10 + m % 10);
        assert forall|i: int| 0 <= i < t.len() implies decimal_char(#[trigger] t[i]) by {
            if i < f.len() {
                assert(t[i] == f[i]);
            }
        }
        assert(t[0] == f[0]);
    }
}

/// An ASCII letter.
pub open spec fn ascii_letter(c: char) -> bool {
    ('a' <= c && c <= 'z') || ('A' <= c && c <= 'Z')
}

/// A character that may stand in a simple name after its first: any character that
/// neither ends a token (whitespace, a comma, a macro character other than `#`) nor is
/// refused in one (`@`, `` ` ``, `~`), other than `/` and `:`.
pub open spec fn name_rest_char(c: char) -> bool {
    !whitespace_char(c) && !terminating_macro_char(c) && !non_constituent_char(c) && c != '/' && c != ':'
}

/// A character that may start a simple name: a name character that is not a decimal
/// digit, `#`, `+` or `-`.
pub open spec fn name_start_char(c: char) -> bool {
    name_rest_char(c) && !decimal_digit(c) && c != '#' && c != '+' && c != '-'
}

/// A simple name: a name-starting character, then name characters; no `/` and no `:`.
pub open spec fn simple_name(x: Seq<char>) -> bool {
    &&& x.len() > 0
    &&& name_start_char(x[0])
    &&& forall|i: int| 1 <= i < x.len() ==> name_rest_char(#[trigger] x[i])
}

/// A simple name, or a namespace and a name (both simple) with `/` between them.
pub open spec fn qualified_name(x: Seq<char>) -> bool {
    ||| simple_name(x)
    ||| exists|j: int|
        0 < j < x.len() - 1 && #[trigger] x[j] == '/' && simple_name(x.take(j)) && simple_name(x.skip(j + 1))
}

/// A character that reads back wherever it stands in a string: any but the carriage
/// return, which reads back only where no line feed follows it (see `no_crlf`).
pub open spec fn plain_string_char(c: char) -> bool {
    c != '\r'
}

/// A string without a carriage return directly before a line feed (printing writes such a
/// pair as a line feed alone).
pub open spec fn no_crlf(x: Seq<char>) -> bool {
    forall|i: int| 0 <= i < x.len() - 1 ==> !(#[trigger] x[i] == '\r' && x[i + 1] == '\n')
}

/// A plain value: `nil`, a boolean, an integer, a big integer, a plain float (see
/// `plain_float`), a character, a string without a carriage return before a line feed, a keyword or symbol
/// with a simple or qualified name (a symbol not `nil`, `true` or `false`), and lists,
/// vectors, sets (items ascending) and maps (keys ascending) of plain values, and `inst`
/// and `uuid` tagged plain values. The order of sets and maps is the one that every
/// `EdnSet` and `EdnMap` keeps. Not plain: a float without digits after its point (it
/// prints as an integer), the infinities and NaN (they print as symbols), big decimals
/// (their text is `bigdecimal`'s), ratios (they print with `R`, which does not read),
/// strings with a carriage return before a line feed (it prints as `\n`), names the symbol pattern
/// refuses, and tags other than `inst` and `uuid` (they do not read at all).
pub open spec fn plain(v: EdnValue) -> bool
    decreases v,
{
    match v {
        EdnValue::Nil => true,
        EdnValue::Bool(_) => true,
        EdnValue::Str(x) => no_crlf(x),
        EdnValue::Char(_) => true,
        EdnValue::Symbol(x) => qualified_name(x) && x != "nil"@ && x != "true"@ && x != "false"@,
        EdnValue::Keyword(x) => qualified_name(x),
        EdnValue::Int(n) => i64::MIN <= n <= i64::MAX,
        EdnValue::BigInt(_) => true,
        EdnValue::Float(f) => plain_float(f),
        EdnValue::Decimal(_, _) => false,
        EdnValue::Ratio(_, _) => false,
        EdnValue::List(xs) => forall|i: int| 0 <= i < xs.len() ==> plain(#[trigger] xs[i]),
        EdnValue::Vector(xs) => forall|i: int| 0 <= i < xs.len() ==> plain(#[trigger] xs[i]),
        EdnValue::SetOf(xs) => strictly_ascending(xs) && forall|i: int| 0 <= i < xs.len() ==> plain(#[trigger] xs[i]),
        EdnValue::MapOf(es) => keys_ascending(es) && forall|i: int| 0 <= i < es.len() ==> plain(#[trigger] es[i].0) && plain(es[i].1),
        EdnValue::Tagged(t, x) => (t == "inst"@ || t == "uuid"@) && plain(*x),
    }
}

/// The magnitude of an integer.
pub open spec fn magnitude(u: int) -> nat {
    if u < 0 { (-u) as nat } else { u as nat }
}

/// A plain float: a finite one without trailing zeros, with a positive scale that fits in
/// an `i64`, at least `10^-324` and below `10^309` in size.
pub open spec fn plain_float(f: FloatModel) -> bool {
    match f {
        FloatModel::Finite(u, s) => {
            &&& magnitude(u) % 10 != 0
            &&& 0 < s <= i64::MAX
            &&& -323 <= nat_text(magnitude(u)).len() - s <= 309
        },
        _ => false,
    }
}

/// The text read from `p` ends at `e`: at the end of input, whitespace or a character
/// that ends a token.
pub open spec fn ends_at(s: Seq<char>, e: int) -> bool {
    e == s.len() || whitespace_char(s[e]) || terminating_macro_char(s[e])
}

/// The text `t` stands in `s` at `p`.
pub open spec fn placed(s: Seq<char>, p: int, t: Seq<char>) -> bool {
    0 <= p && p + t.len() <= s.len() && s.subrange(p, p + t.len()) == t
}

proof fn lemma_placed(s: Seq<char>, p: int, t: Seq<char>)
    requires
        placed(s, p, t),
    ensures
        forall|i: int| 0 <= i < t.len() ==> #[trigger] s[p + i] == t[i],
{
    assert forall|i: int| 0 <= i < t.len() implies #[trigger] s[p + i] == t[i] by {
        assert(s.subrange(p, p + t.len())[i] == s[p + i]);
    }
}

proof fn lemma_placed_char(s: Seq<char>, p: int, t: Seq<char>, i: int)
    requires
        placed(s, p, t),
        0 <= i < t.len(),
    ensures
        s[p + i] == t[i],
{
    lemma_placed(s, p, t);
}

proof fn lemma_number_stop_run(s: Seq<char>, a: int, e: int)
    requires
        0 <= a <= e <= s.len(),
        forall|i: int| a <= i < e ==> !whitespace_char(#[trigger] s[i]) && !macro_char(s[i]),
        ends_at(s, e),
    ensures
        number_stop(s, a) == e,
    decreases e - a,
{
    if a < e {
        assert(!whitespace_char(s[a]) && !macro_char(s[a]));
        lemma_number_stop_run(s, a + 1, e);
    }
}

proof fn lemma_token_run(s: Seq<char>, a: int, e: int)
    requires
        0 <= a <= e <= s.len(),
        forall|i: int| a <= i < e ==> !whitespace_char(#[trigger] s[i]) && !terminating_macro_char(s[i]) && !non_constituent_char(s[i]),
        ends_at(s, e),
    ensures
        token_stop(s, a) == e,
    decreases e - a,
{
    if a < e {
        assert(!whitespace_char(s[a]) && !terminating_macro_char(s[a]) && !non_constituent_char(s[a]));
        lemma_token_run(s, a + 1, e);
    }
}

/// The value in radix 10 of decimal digits is their decimal value.
pub proof fn lemma_radix_decimal(cs: Seq<char>)
    requires
        all_decimal(cs),
    ensures
        radix_value(cs, 10) == Some(decimal_value(digit_values(cs))),
    decreases cs.len(),
{
    if cs.len() > 0 {
        let f = cs.drop_last();
        assert forall|i: int| 0 <= i < f.len() implies decimal_char(#[trigger] f[i]) by {
            assert(f[i] == cs[i]);
        }
        lemma_radix_decimal(f);
        assert(digit_values(cs).drop_last() =~= digit_values(f));
        assert(decimal_char(cs[cs.len() - 1]));
        assert(digit_values(cs).last() == (cs.last() as int - '0' as int) as u8);
    } else {
        assert(digit_values(cs) =~= Seq::<u8>::empty());
    }
}

/// The decimal text of an integer in the range of `i64`: a sign or a digit first, digits
/// after, and its value as a number.
pub proof fn lemma_int_text(n: int)
    requires
        i64::MIN <= n <= i64::MAX,
    ensures
        int_text(n).len() >= 1,
        decimal_char(int_text(n)[0]) || (int_text(n)[0] == '-' && int_text(n).len() >= 2 && decimal_char(int_text(n)[1])),
        forall|i: int| 1 <= i < int_text(n).len() ==> decimal_char(#[trigger] int_text(n)[i]),
        number_value(int_text(n)) == Some(EdnValue::Int(n)),
{
    let s = int_text(n);
    let m: nat = if n < 0 { (-n) as nat } else { n as nat };
    lemma_nat_text_digits(m);
    let d = nat_text(m);
    if n < 0 {
        assert(s == seq!['-'] + d);
        assert(s[1] == d[0]);
        assert forall|i: int| 1 <= i < s.len() implies decimal_char(#[trigger] s[i]) by {
            assert(s[i] == d[i - 1]);
        }
        assert(s.skip(1) =~= d);
    } else {
        assert(s == d);
        assert(s.skip(0) =~= d);
    }
    assert(all_decimal(d));
    lemma_radix_decimal(d);
    if m > 0 {
        assert(d != seq!['0']) by { assert(d[0] != '0'); }
        assert(d != seq!['0', 'N']) by { assert(decimal_char(d[d.len() - 1])); }
        assert(d.last() != 'N') by { assert(decimal_char(d[d.len() - 1])); }
        assert(integer_body(d) == Some(m));
    }
}

/// The text of a big integer: a sign or a digit first, digits, then `N`; its value as a
/// number is the big integer.
proof fn lemma_big_text(n: int)
    ensures
        edn_text(EdnValue::BigInt(n)).len() >= 2,
        decimal_char(edn_text(EdnValue::BigInt(n))[0]) || (edn_text(EdnValue::BigInt(n))[0] == '-' && decimal_char(edn_text(EdnValue::BigInt(n))[1])),
        forall|i: int| 1 <= i < edn_text(EdnValue::BigInt(n)).len() ==> decimal_char(#[trigger] edn_text(EdnValue::BigInt(n))[i]) || edn_text(EdnValue::BigInt(n))[i] == 'N',
        number_value(edn_text(EdnValue::BigInt(n))) == Some(EdnValue::BigInt(n)),
{
    let s = edn_text(EdnValue::BigInt(n));
    let m: nat = if n < 0 { (-n) as nat } else { n as nat };
    lemma_nat_text_digits(m);
    let d = nat_text(m);
    let o: int = if n < 0 { 1 } else { 0 };
    if n < 0 {
        assert(s == seq!['-'] + d + seq!['N']);
    } else {
        assert(s == d + seq!['N']);
    }
    assert(s[s.len() - 1] == 'N');
    assert forall|i: int| o <= i < s.len() - 1 implies decimal_char(#[trigger] s[i]) by {
        assert(s[i] == d[i - o]);
    }
    assert(s[o] == d[0]);
    assert forall|i: int| 1 <= i < s.len() implies decimal_char(#[trigger] s[i]) || s[i] == 'N' by {
        if i < s.len() - 1 {
            assert(decimal_char(s[i]));
        }
    }
    assert(s.skip(o) =~= d + seq!['N']);
    assert((d + seq!['N']).drop_last() =~= d);
    assert(all_decimal(d));
    lemma_radix_decimal(d);
    if m > 0 {
        assert(d + seq!['N'] != seq!['0']);
        assert(d + seq!['N'] != seq!['0', 'N']) by { assert(d[0] != '0'); }
        assert(integer_body(d) == Some(m));
    } else {
        assert(d + seq!['N'] =~= seq!['0', 'N']);
    }
}


/// The end of a run of decimal digits that ends at `e`.
pub proof fn lemma_digits_end(b: Seq<char>, k: int, e: int)
    requires
        0 <= k <= e <= b.len(),
        forall|i: int| k <= i < e ==> decimal_char(#[trigger] b[i]),
        e == b.len() || !decimal_char(b[e]),
    ensures
        digits_end(b, k) == e,
    decreases e - k,
{
    if k < e {
        lemma_digits_end(b, k + 1, e);
    }
}

/// The text of a plain float: a digit or `-` and a digit first, then digits and one
/// point; its value as a number is the float.
#[verifier::spinoff_prover]
#[verifier::rlimit(100)]
proof fn lemma_float_text(u: int, sc: int)
    requires
        plain_float(FloatModel::Finite(u, sc)),
    ensures
        float_text(u, sc).len() >= 3,
        decimal_char(float_text(u, sc)[0]) || (float_text(u, sc)[0] == '-' && decimal_char(float_text(u, sc)[1])),
        forall|i: int| 1 <= i < float_text(u, sc).len() ==> decimal_char(#[trigger] float_text(u, sc)[i]) || float_text(u, sc)[i] == '.',
        number_value(float_text(u, sc)) == Some(EdnValue::Float(FloatModel::Finite(u, sc))),
{
    let m = magnitude(u);
    lemma_nat_text_digits(m);
    let d = nat_text(m);
    let l = d.len() as int;
    let t = float_text(u, sc);
    let o: int = if u < 0 { 1 } else { 0 };
    let b = t.skip(o);
    assert(m > 0);
    let sign: Seq<char> = if u < 0 { seq!['-'] } else { Seq::empty() };
    let i: int = if sc < l { l - sc } else { 1 };
    let fr: Seq<char> = if sc < l { d.skip(l - sc) } else { zeros(sc - l) + d };
    let ip: Seq<char> = if sc < l { d.take(l - sc) } else { seq!['0'] };
    assert(t == sign + (ip + seq!['.'] + fr)) by {
        if sc < l {
            assert(t =~= sign + (ip + seq!['.'] + fr));
        } else {
            assert(t =~= sign + (ip + seq!['.'] + fr));
        }
    }
    assert(b =~= ip + seq!['.'] + fr);
    assert(ip.len() == i);
    assert(fr.len() == sc);
    assert(forall|x: int| 0 <= x < ip.len() ==> decimal_char(#[trigger] ip[x])) by {
        if sc < l {
            assert forall|x: int| 0 <= x < ip.len() implies decimal_char(#[trigger] ip[x]) by {
                assert(ip[x] == d[x]);
            }
        }
    }
    assert(forall|x: int| 0 <= x < fr.len() ==> decimal_char(#[trigger] fr[x])) by {
        assert forall|x: int| 0 <= x < fr.len() implies decimal_char(#[trigger] fr[x]) by {
            if sc < l {
                assert(fr[x] == d[l - sc + x]);
            } else if x < sc - l {
                assert(fr[x] == '0');
            } else {
                assert(fr[x] == d[x - (sc - l)]);
            }
        }
    }
    assert(b[i] == '.');
    assert forall|x: int| 0 <= x < i implies decimal_char(#[trigger] b[x]) by {
        assert(b[x] == ip[x]);
    }
    assert forall|x: int| i + 1 <= x < b.len() implies decimal_char(#[trigger] b[x]) by {
        assert(b[x] == fr[x - i - 1]);
    }
    lemma_digits_end(b, 0, i);
    lemma_digits_end(b, i + 1, b.len() as int);
    assert(b.take(i) =~= ip);
    assert(b.subrange(i + 1, b.len() as int) =~= fr);
    let mant = ip + fr;
    assert(all_decimal(mant)) by {
        assert forall|x: int| 0 <= x < mant.len() implies decimal_char(#[trigger] mant[x]) by {
            if x < ip.len() { assert(mant[x] == ip[x]); } else { assert(mant[x] == fr[x - ip.len()]); }
        }
    }
    lemma_radix_decimal(mant);
    assert(decimal_value(digit_values(mant)) == m) by {
        if sc < l {
            assert(mant =~= d);
        } else {
            let zz = seq!['0'] + zeros(sc - l);
            assert(mant =~= zz + d);
            assert(digit_values(mant) =~= digit_values(zz) + digit_values(d));
            assert(digit_values(zz) =~= Seq::new(zz.len(), |j: int| 0u8));
            lemma_zeros_value(zz.len());
            lemma_decimal_concat(digit_values(zz), digit_values(d));
        }
    }
    assert(decimal_parts(b) == Some((mant, sc, 0int)));
    assert(decimal_of_body(u < 0, b) == Some((u, sc)));
    assert(stripped(m, sc) == (m, sc));
    assert(float_model(u, sc) == FloatModel::Finite(u, sc));
    // not an integer's text
    assert(!all_decimal(b)) by { assert(!decimal_char(b[i])); }
    assert(b.len() > 0 && b.last() != 'M' && b.last() != 'N') by {
        assert(decimal_char(b[b.len() - 1]));
    }
    assert(b != seq!['0'] && b != seq!['0', 'N']) by {
        assert(b.len() >= 3);
    }
    assert(integer_body(b) is None) by {
        if sc < l {
            assert(b[0] == d[0]);
        } else {
            assert(b[1] == '.');
            assert(!all_decimal(b.skip(1))) by { assert(b.skip(1)[0] == '.'); }
        }
    }
    assert(radix_body(b) is None) by {
        if b.len() >= 2 && decimal_char(b[1]) {
            assert(b[2] == '.' || decimal_char(b[2]));
        } else {
            assert(b[1] == '.');
        }
    }
    assert(sign_length(t) == o) by {
        if u >= 0 { assert(t[0] == b[0]); assert(decimal_char(b[0])); }
    }
    assert(t.skip(sign_length(t)) == b);
    assert(fraction_value(t) == Some(EdnValue::Float(FloatModel::Finite(u, sc))));
    assert(t[o] == b[0]);
    assert forall|x: int| 1 <= x < t.len() implies decimal_char(#[trigger] t[x]) || t[x] == '.' by {
        if x >= o {
            assert(t[x] == b[x - o]);
        }
    }
}

/// A number placed at `p` (after whitespace from `p0`) and followed by the end of a token
/// reads as itself.
#[verifier::spinoff_prover]
#[verifier::rlimit(60)]
proof fn lemma_read_number(s: Seq<char>, p0: int, p: int, v: EdnValue)
    requires
        v is Int || v is BigInt || v is Float,
        plain(v),
        0 <= p0 <= p,
        skip_ws(s, p0) == p,
        placed(s, p, edn_text(v)),
        ends_at(s, p + edn_text(v).len()),
    ensures
        read_at(s, p0) == Parsed::Done(v, p + edn_text(v).len()),
{
    let t = edn_text(v);
    let n = t.len() as int;
    match v {
        EdnValue::Int(k) => { lemma_int_text(k); },
        EdnValue::BigInt(k) => { lemma_big_text(k); },
        EdnValue::Float(FloatModel::Finite(u, sc)) => { lemma_float_text(u, sc); },
        _ => {},
    }
    lemma_placed(s, p, t);
    assert(s[p] == t[0]);
    assert forall|i: int| p + 1 <= i < p + n implies !whitespace_char(#[trigger] s[i]) && !macro_char(s[i]) by {
        assert(s[p + (i - p)] == t[i - p]);
    }
    lemma_number_stop_run(s, p + 1, p + n);
    assert(seq![t[0]] + s.subrange(p + 1, p + n) =~= t);
    if !decimal_char(t[0]) {
        assert(s[p + 1] == t[1]);
    }
    assert(number_at(s, p + 1, s[p]) == Parsed::Done(v, p + n));
}

proof fn lemma_slash_stop_none(s: Seq<char>, i: int)
    requires
        0 <= i <= s.len(),
        forall|j: int| i <= j < s.len() ==> #[trigger] s[j] != '/',
    ensures
        slash_stop(s, i) == s.len(),
    decreases s.len() - i,
{
    if i < s.len() {
        assert(s[i] != '/');
        lemma_slash_stop_none(s, i + 1);
    }
}

proof fn lemma_namespace_search_none(s: Seq<char>, o: int, j: int)
    requires
        0 <= o,
        j < s.len(),
        forall|k: int| o < k <= j ==> #[trigger] s[k] != '/',
    ensures
        namespace_search(s, o, j) is None,
    decreases j - o,
{
    if j > o {
        assert(s[j] != '/');
        lemma_namespace_search_none(s, o, j - 1);
    }
}

/// The captures of a simple name that starts at `o` and runs to the end of `s`: no
/// namespace, the name from `o` to the end.
pub proof fn lemma_simple_captures(s: Seq<char>, o: int)
    requires
        0 <= o < s.len(),
        simple_name(s.skip(o)),
    ensures
        captures_from(s, o) == Some((None::<(int, int)>, (o, s.len() as int))),
{
    let x = s.skip(o);
    assert(s[o] == x[0]);
    assert forall|k: int| o < k < s.len() implies #[trigger] s[k] != '/' by {
        assert(s[k] == x[k - o]);
        assert(name_rest_char(x[k - o]));
    }
    lemma_namespace_search_none(s, o, s.len() - 1);
    lemma_slash_stop_none(s, o + 1);
}

/// The characters of a qualified name: a name-starting one, then name characters and `/`.
proof fn lemma_qualified_chars(x: Seq<char>)
    requires
        qualified_name(x),
    ensures
        x.len() >= 1,
        name_start_char(x[0]),
        forall|i: int| 1 <= i < x.len() ==> name_rest_char(#[trigger] x[i]) || x[i] == '/',
{
    if !simple_name(x) {
        let j = choose|j: int|
            0 < j < x.len() - 1 && #[trigger] x[j] == '/' && simple_name(x.take(j)) && simple_name(x.skip(j + 1));
        let a = x.take(j);
        let b = x.skip(j + 1);
        assert(x[0] == a[0]);
        assert forall|i: int| 1 <= i < x.len() implies name_rest_char(#[trigger] x[i]) || x[i] == '/' by {
            if i < j {
                assert(x[i] == a[i]);
            } else if i > j {
                assert(x[i] == b[i - j - 1]);
                if i - j - 1 >= 1 {
                    assert(name_rest_char(b[i - j - 1]));
                }
            }
        }
    }
}

proof fn lemma_namespace_search_found(s: Seq<char>, o: int, j: int, at: int)
    requires
        0 <= o < at <= j < s.len(),
        s[at] == '/',
        forall|k: int| at < k <= j ==> #[trigger] s[k] != '/',
        forall|k: int| o < k < at ==> #[trigger] s[k] != '\n',
        name_end(s, at + 1) == Some(s.len() as int),
    ensures
        namespace_search(s, o, j) == Some((at + 1, s.len() as int)),
    decreases j - o,
{
    if j > at {
        assert(s[j] != '/');
        lemma_namespace_search_found(s, o, j - 1, at);
    }
}

/// The captures of a namespace from `o` to the `/` at `at` and a name after it, to the
/// end of `s`, both simple.
pub proof fn lemma_qualified_captures(s: Seq<char>, o: int, at: int)
    requires
        0 <= o < at < s.len() - 1,
        s[at] == '/',
        simple_name(s.subrange(o, at)),
        simple_name(s.skip(at + 1)),
    ensures
        captures_from(s, o) == Some((Some((o, at + 1)), (at + 1, s.len() as int))),
{
    let a = s.subrange(o, at);
    let b = s.skip(at + 1);
    assert(s[o] == a[0]);
    assert(s[at + 1] == b[0]);
    assert forall|k: int| at + 1 < k < s.len() implies #[trigger] s[k] != '/' by {
        assert(s[k] == b[k - at - 1]);
        assert(name_rest_char(b[k - at - 1]));
    }
    assert forall|k: int| o < k < at implies #[trigger] s[k] != '\n' by {
        assert(s[k] == a[k - o]);
        assert(name_rest_char(a[k - o]));
    }
    lemma_slash_stop_none(s, at + 2);
    assert(name_end(s, at + 1) == Some(s.len() as int));
    lemma_namespace_search_found(s, o, s.len() - 1, at);
}

/// The token of a qualified name, not `nil`, `true` or `false`, is that symbol; with a
/// `:` before it, it is that keyword.
proof fn lemma_qualified_token(x: Seq<char>)
    requires
        qualified_name(x),
    ensures
        symbol_value(x) == Some(EdnValue::Symbol(x)),
        symbol_value(seq![':'] + x) == Some(EdnValue::Keyword(x)),
{
    if simple_name(x) {
        lemma_simple_token(x);
    } else {
        lemma_qualified_chars(x);
        let j = choose|j: int|
            0 < j < x.len() - 1 && #[trigger] x[j] == '/' && simple_name(x.take(j)) && simple_name(x.skip(j + 1));
        assert(x.subrange(0, j) =~= x.take(j));
        lemma_qualified_captures(x, 0, j);
        assert(x[j - 1] != ':') by {
            if j - 1 >= 1 {
                assert(name_rest_char(x[j - 1]) || x[j - 1] == '/');
            }
        }
        assert(x[x.len() - 1] != ':') by {
            assert(name_rest_char(x[x.len() - 1]) || x[x.len() - 1] == '/');
        }
        assert(!has_double_colon(x, 1)) by {
            assert forall|i: int| 1 <= i && i + 1 < x.len() implies !(#[trigger] x[i] == ':' && x[i + 1] == ':') by {
                assert(name_rest_char(x[i]) || x[i] == '/');
            }
        }
        let k = seq![':'] + x;
        assert(k.subrange(1, j + 1) =~= x.take(j));
        assert(k.skip(j + 2) =~= x.skip(j + 1));
        assert(k[j + 1] == x[j]);
        lemma_qualified_captures(k, 1, j + 1);
        assert(k[j] == x[j - 1]);
        assert(k[k.len() - 1] == x[x.len() - 1]);
        assert(!has_double_colon(k, 1)) by {
            assert forall|i: int| 1 <= i && i + 1 < k.len() implies !(#[trigger] k[i] == ':' && k[i + 1] == ':') by {
                assert(k[i] == x[i - 1]);
                if i - 1 >= 1 {
                    assert(name_rest_char(x[i - 1]) || x[i - 1] == '/');
                }
            }
        }
        assert(k[1] == x[0]);
        assert(k.drop_first() =~= x);
    }
}

/// The token of a simple name, not `nil`, `true` or `false`, is that symbol; with a `:`
/// before it, it is that keyword.
proof fn lemma_simple_token(x: Seq<char>)
    requires
        simple_name(x),
    ensures
        symbol_value(x) == Some(EdnValue::Symbol(x)),
        symbol_value(seq![':'] + x) == Some(EdnValue::Keyword(x)),
{
    assert(x.skip(0) =~= x);
    lemma_simple_captures(x, 0);
    assert(symbol_captures(x) == Some((None::<(int, int)>, (0int, x.len() as int))));
    assert(!has_double_colon(x, 1)) by {
        assert forall|i: int| 1 <= i && i + 1 < x.len() implies !(#[trigger] x[i] == ':' && x[i + 1] == ':') by {
            assert(name_rest_char(x[i]));
        }
    }
    assert(x[x.len() - 1] != ':') by {
        if x.len() > 1 {
            assert(name_rest_char(x[x.len() - 1]));
        }
    }
    let k = seq![':'] + x;
    assert(k.skip(1) =~= x);
    lemma_simple_captures(k, 1);
    assert(k[k.len() - 1] == x[x.len() - 1]);
    assert(!has_double_colon(k, 1)) by {
        assert forall|i: int| 1 <= i && i + 1 < k.len() implies !(#[trigger] k[i] == ':' && k[i + 1] == ':') by {
            assert(k[i] == x[i - 1]);
            if i - 1 >= 1 {
                assert(name_rest_char(x[i - 1]));
            }
        }
    }
    assert(k[1] == x[0]);
    assert(k.drop_first() =~= x);
}

/// `nil`, a boolean, a symbol or a keyword placed at `p` (after whitespace from `p0`)
/// and followed by the end of a token reads as itself.
proof fn lemma_read_token(s: Seq<char>, p0: int, p: int, v: EdnValue)
    requires
        v is Nil || v is Bool || v is Symbol || v is Keyword,
        plain(v),
        0 <= p0 <= p,
        skip_ws(s, p0) == p,
        placed(s, p, edn_text(v)),
        ends_at(s, p + edn_text(v).len()),
    ensures
        read_at(s, p0) == Parsed::Done(v, p + edn_text(v).len()),
{
    reveal_strlit("nil");
    reveal_strlit("true");
    reveal_strlit("false");
    let t = edn_text(v);
    let n = t.len() as int;
    lemma_placed(s, p, t);
    assert(n >= 1 && (name_start_char(t[0]) || t[0] == ':')) by {
        match v {
            EdnValue::Keyword(x) => { assert(t[0] == ':'); },
            EdnValue::Symbol(x) => { lemma_qualified_chars(x); },
            _ => {},
        }
    }
    assert forall|i: int| 1 <= i < n implies name_rest_char(#[trigger] t[i]) || t[i] == ':' || t[i] == '/' by {
        match v {
            EdnValue::Keyword(x) => {
                lemma_qualified_chars(x);
                assert(t[i] == x[i - 1]);
                if i - 1 >= 1 {
                    assert(name_rest_char(x[i - 1]) || x[i - 1] == '/');
                }
            },
            EdnValue::Symbol(x) => {
                lemma_qualified_chars(x);
                assert(name_rest_char(x[i]) || x[i] == '/');
            },
            _ => {},
        }
    }
    assert forall|i: int| p + 1 <= i < p + n implies !whitespace_char(#[trigger] s[i]) && !terminating_macro_char(s[i]) && !non_constituent_char(s[i]) by {
        assert(s[p + (i - p)] == t[i - p]);
        assert(name_rest_char(t[i - p]) || t[i - p] == ':' || t[i - p] == '/');
    }
    lemma_token_run(s, p + 1, p + n);
    assert(seq![t[0]] + s.subrange(p + 1, p + n) =~= t);
    assert(token_at(s, p + 1, s[p], true) == Parsed::Done(t, p + n));
    match v {
        EdnValue::Symbol(x) => { lemma_qualified_token(x); },
        EdnValue::Keyword(x) => {
            lemma_qualified_token(x);
            assert(t != "nil"@ && t != "true"@ && t != "false"@) by {
                assert(t[0] == ':');
            }
        },
        _ => {},
    }
    assert(token_value(t, p + n) == Parsed::Done(v, p + n));
}

/// A character placed at `p` after `\` (by name where it has one; after whitespace from
/// `p0`), followed by the end of a token, reads as itself.
proof fn lemma_read_char(s: Seq<char>, p0: int, p: int, c: char)
    requires
        0 <= p0 <= p,
        skip_ws(s, p0) == p,
        placed(s, p, edn_text(EdnValue::Char(c))),
        ends_at(s, p + edn_text(EdnValue::Char(c)).len()),
    ensures
        read_at(s, p0) == Parsed::Done(EdnValue::Char(c), p + edn_text(EdnValue::Char(c)).len()),
        macro_at(s, p + 1, s[p]) == Parsed::Done(Some(EdnValue::Char(c)), p + edn_text(EdnValue::Char(c)).len()),
{
    reveal_strlit("newline");
    reveal_strlit("space");
    reveal_strlit("tab");
    reveal_strlit("backspace");
    reveal_strlit("formfeed");
    reveal_strlit("return");
    let name = char_name(c);
    let t = edn_text(EdnValue::Char(c));
    let n = t.len() as int;
    assert(t == seq!['\\'] + name);
    lemma_placed(s, p, t);
    assert(t[0] == '\\');
    assert(s[p] == '\\');
    assert(t[1] == name[0]);
    assert(s[p + 1] == name[0]);
    assert forall|i: int| 1 <= i < name.len() implies ascii_letter(#[trigger] name[i]) by {}
    assert forall|i: int| p + 2 <= i < p + n implies !whitespace_char(#[trigger] s[i]) && !terminating_macro_char(s[i]) && !non_constituent_char(s[i]) by {
        assert(s[p + (i - p)] == t[i - p]);
        assert(t[i - p] == name[i - p - 1]);
        assert(ascii_letter(name[i - p - 1]));
    }
    lemma_token_run(s, p + 2, p + n);
    assert(seq![name[0]] + s.subrange(p + 2, p + n) =~= name) by {
        assert forall|i: int| 1 <= i < name.len() implies #[trigger] name[i] == s[p + 1 + i] by {
            assert(s[p + (1 + i)] == t[1 + i]);
        }
    }
    assert(token_at(s, p + 2, name[0], false) == Parsed::Done(name, p + n));
    assert(character_value(name) == Ok::<char, Seq<char>>(c));
    assert(character_at(s, p + 1) == Parsed::Done(Some(EdnValue::Char(c)), p + n));
}

proof fn lemma_escaped_split(a: Seq<char>, b: Seq<char>)
    ensures
        escaped(a + b) == escaped(a) + escaped(b),
    decreases b.len(),
{
    if b.len() == 0 {
        assert(a + b =~= a);
        assert(escaped(a) + escaped(b) =~= escaped(a));
    } else {
        lemma_escaped_split(a, b.drop_last());
        assert((a + b).drop_last() =~= a + b.drop_last());
        assert((a + b).last() == b.last());
        assert(escaped(a) + escaped(b) =~= escaped(a) + escaped(b.drop_last()) + escaped_char(b.last()));
    }
}

proof fn lemma_escaped_front(x: Seq<char>)
    requires
        x.len() > 0,
    ensures
        escaped(x) == escaped_char(x[0]) + escaped(x.drop_first()),
{
    lemma_escaped_split(seq![x[0]], x.drop_first());
    assert(seq![x[0]] + x.drop_first() =~= x);
    assert(seq![x[0]].drop_last() =~= Seq::<char>::empty());
    assert(escaped(Seq::<char>::empty()) =~= Seq::<char>::empty());
    assert(escaped(seq![x[0]]) =~= escaped_char(x[0]));
}

proof fn lemma_no_crlf(x: Seq<char>)
    requires
        no_crlf(x),
    ensures
        crlf_to_lf(x) == x,
    decreases x.len(),
{
    if x.len() > 0 {
        if x.len() >= 2 {
            assert(!(x[0] == '\r' && x[1] == '\n'));
        }
        assert forall|i: int| 0 <= i < x.drop_first().len() - 1 implies !(#[trigger] x.drop_first()[i] == '\r' && x.drop_first()[i + 1] == '\n') by {
            assert(x.drop_first()[i] == x[i + 1]);
            assert(x.drop_first()[i + 1] == x[i + 2]);
            assert(!(x[i + 1] == '\r' && x[i + 2] == '\n'));
        }
        lemma_no_crlf(x.drop_first());
        assert(seq![x[0]] + x.drop_first() =~= x);
    }
}

/// The escaped text of plain string characters `x`, placed at `i` and closed by `"`,
/// reads as `x` after the characters `acc`.
proof fn lemma_read_string_body(s: Seq<char>, i: int, x: Seq<char>, acc: Seq<char>)
    requires
        placed(s, i, escaped(x)),
        i + escaped(x).len() < s.len(),
        s[i + escaped(x).len()] == '"',
    ensures
        string_body(s, i, acc) == Parsed::Done(Some(EdnValue::Str(acc + x)), i + escaped(x).len() + 1),
    decreases x.len(),
{
    if x.len() == 0 {
        assert(acc + x =~= acc);
    } else {
        let c = x[0];
        let rest = x.drop_first();
        lemma_escaped_front(x);
        let e = escaped_char(c);
        lemma_placed(s, i, escaped(x));
        assert(escaped(x)[0] == e[0]);
        assert(s[i] == e[0]);
        if e.len() == 2 {
            assert(escaped(x)[1] == e[1]);
            assert(s[i + 1] == e[1]);
        }
        assert(s.subrange(i + e.len(), i + e.len() + escaped(rest).len()) =~= escaped(rest)) by {
            assert forall|k: int| 0 <= k < escaped(rest).len() implies #[trigger] s.subrange(i + e.len(), i + e.len() + escaped(rest).len())[k] == escaped(rest)[k] by {
                assert(escaped(x)[e.len() + k] == escaped(rest)[k]);
                assert(s[i + (e.len() + k)] == escaped(x)[e.len() + k]);
            }
        }
        lemma_read_string_body(s, i + e.len(), rest, acc.push(c));
        assert(acc.push(c) + rest =~= acc + x);
    }
}

/// A plain string placed at `p` (after whitespace from `p0`) reads as itself.
proof fn lemma_read_string(s: Seq<char>, p0: int, p: int, x: Seq<char>)
    requires
        no_crlf(x),
        0 <= p0 <= p,
        skip_ws(s, p0) == p,
        placed(s, p, edn_text(EdnValue::Str(x))),
    ensures
        read_at(s, p0) == Parsed::Done(EdnValue::Str(x), p + edn_text(EdnValue::Str(x)).len()),
        macro_at(s, p + 1, s[p]) == Parsed::Done(Some(EdnValue::Str(x)), p + edn_text(EdnValue::Str(x)).len()),
{
    lemma_no_crlf(x);
    let t = edn_text(EdnValue::Str(x));
    let body = escaped(x);
    assert(t == seq!['"'] + body + seq!['"']);
    lemma_placed(s, p, t);
    assert(t[0] == '"');
    assert(s[p] == '"');
    assert(s[p + (1 + body.len())] == t[1 + body.len() as int]);
    assert(s.subrange(p + 1, p + 1 + body.len()) =~= body) by {
        assert forall|k: int| 0 <= k < body.len() implies #[trigger] s.subrange(p + 1, p + 1 + body.len())[k] == body[k] by {
            assert(s[p + (1 + k)] == t[1 + k]);
        }
    }
    lemma_read_string_body(s, p + 1, x, Seq::empty());
    assert(Seq::<char>::empty() + x =~= x);
}

proof fn lemma_placed_split(s: Seq<char>, p: int, a: Seq<char>, b: Seq<char>)
    requires
        placed(s, p, a + b),
    ensures
        placed(s, p, a),
        placed(s, p + a.len(), b),
{
    lemma_placed(s, p, a + b);
    assert(s.subrange(p, p + a.len()) =~= a) by {
        assert forall|i: int| 0 <= i < a.len() implies #[trigger] s.subrange(p, p + a.len())[i] == a[i] by {
            assert(s[p + i] == (a + b)[i]);
        }
    }
    assert(s.subrange(p + a.len(), p + a.len() + b.len()) =~= b) by {
        assert forall|i: int| 0 <= i < b.len() implies #[trigger] s.subrange(p + a.len(), p + a.len() + b.len())[i] == b[i] by {
            assert(s[p + (a.len() + i)] == (a + b)[a.len() + i]);
        }
    }
}

/// A character that may start the text of a value: not whitespace, not a closing bracket.
pub open spec fn opening_char(c: char) -> bool {
    !whitespace_char(c) && c != ')' && c != ']' && c != '}'
}

/// The text of a plain value is not empty, and starts with an opening character.
proof fn lemma_text_start(v: EdnValue)
    requires
        plain(v),
    ensures
        edn_text(v).len() >= 1,
        opening_char(edn_text(v)[0]),
{
    reveal_strlit("nil");
    reveal_strlit("true");
    reveal_strlit("false");
    match v {
        EdnValue::Int(n) => { lemma_int_text(n); },
        EdnValue::BigInt(n) => { lemma_big_text(n); },
        EdnValue::Float(FloatModel::Finite(u, sc)) => { lemma_float_text(u, sc); },
        EdnValue::Symbol(x) => { lemma_qualified_chars(x); },
        EdnValue::Keyword(x) => { assert(edn_text(v)[0] == ':'); },
        EdnValue::Str(x) => { assert(edn_text(v)[0] == '"'); },
        EdnValue::Char(c) => { assert(edn_text(v)[0] == '\\'); },
        EdnValue::List(xs) => { assert(edn_text(v)[0] == '('); },
        EdnValue::Vector(xs) => { assert(edn_text(v)[0] == '['); },
        EdnValue::SetOf(xs) => { assert(edn_text(v)[0] == '#'); },
        EdnValue::MapOf(es) => { assert(edn_text(v)[0] == '{'); },
        EdnValue::Tagged(t, x) => { assert(edn_text(v)[0] == '#'); },
        _ => {},
    }
}

/// The items' text is the first item's text, then a space and the rest's text.
#[verifier::spinoff_prover]
#[verifier::rlimit(40)]
proof fn lemma_items_front(xs: Seq<EdnValue>)
    requires
        xs.len() >= 1,
    ensures
        items_text(xs) == edn_text(xs[0]) + (if xs.len() == 1 {
            Seq::<char>::empty()
        } else {
            seq![' '] + items_text(xs.subrange(1, xs.len() as int))
        }),
    decreases xs.len(),
{
    let rest = xs.subrange(1, xs.len() as int);
    if xs.len() == 1 {
        assert(edn_text(xs[0]) + Seq::<char>::empty() =~= edn_text(xs[0]));
    } else if xs.len() == 2 {
        assert(xs.drop_last().len() == 1);
        assert(xs.drop_last()[0] == xs[0]);
        assert(rest.len() == 1);
        assert(rest[0] == xs.last());
        assert(items_text(xs.drop_last()) == edn_text(xs[0]));
        assert(items_text(rest) == edn_text(xs.last()));
        assert(items_text(xs) == items_text(xs.drop_last()) + seq![' '] + edn_text(xs.last()));
        assert(items_text(xs) =~= edn_text(xs[0]) + (seq![' '] + items_text(rest)));
    } else {
        let front = xs.drop_last();
        lemma_items_front(front);
        assert(front[0] == xs[0]);
        assert(front.subrange(1, front.len() as int) =~= rest.drop_last());
        assert(rest.last() == xs.last());
        assert(items_text(rest) == items_text(rest.drop_last()) + seq![' '] + edn_text(rest.last()));
        assert(items_text(xs) =~= edn_text(xs[0]) + (seq![' '] + items_text(rest)));
    }
}

/// The entries' text is the first key's text, a space, the first value's text, then `, `
/// and the rest's text.
#[verifier::spinoff_prover]
#[verifier::rlimit(40)]
proof fn lemma_entries_front(es: Seq<(EdnValue, EdnValue)>)
    requires
        es.len() >= 1,
    ensures
        entries_text(es) == edn_text(es[0].0) + seq![' '] + edn_text(es[0].1) + (if es.len() == 1 {
            Seq::<char>::empty()
        } else {
            seq![',', ' '] + entries_text(es.subrange(1, es.len() as int))
        }),
    decreases es.len(),
{
    let rest = es.subrange(1, es.len() as int);
    let head = edn_text(es[0].0) + seq![' '] + edn_text(es[0].1);
    if es.len() == 1 {
        assert(head + Seq::<char>::empty() =~= head);
    } else if es.len() == 2 {
        assert(es.drop_last().len() == 1);
        assert(es.drop_last()[0] == es[0]);
        assert(rest.len() == 1);
        assert(rest[0] == es.last());
        assert(entries_text(es.drop_last()) == head);
        assert(entries_text(rest) == edn_text(es.last().0) + seq![' '] + edn_text(es.last().1));
        assert(entries_text(es) == entries_text(es.drop_last()) + seq![',', ' '] + edn_text(es.last().0) + seq![' '] + edn_text(es.last().1));
        assert(entries_text(es) =~= head + (seq![',', ' '] + entries_text(rest)));
    } else {
        let front = es.drop_last();
        lemma_entries_front(front);
        assert(front[0] == es[0]);
        assert(front.subrange(1, front.len() as int) =~= rest.drop_last());
        assert(rest.last() == es.last());
        assert(entries_text(rest) == entries_text(rest.drop_last()) + seq![',', ' '] + edn_text(rest.last().0) + seq![' '] + edn_text(rest.last().1));
        assert(entries_text(es) =~= head + (seq![',', ' '] + entries_text(rest)));
    }
}

/// The keys and values of entries, one after the other.
pub open spec fn entry_items(es: Seq<(EdnValue, EdnValue)>) -> Seq<EdnValue> {
    Seq::new((2 * es.len()) as nat, |i: int| if i % 2 == 0 { es[i / 2].0 } else { es[i / 2].1 })
}

proof fn lemma_pairs_of_entry_items(es: Seq<(EdnValue, EdnValue)>)
    ensures
        entry_items(es).len() % 2 == 0,
        pairs_of(entry_items(es)) == es,
{
    let xs = entry_items(es);
    assert(xs.len() / 2 == es.len());
    assert forall|i: int| 0 <= i < es.len() implies #[trigger] pairs_of(xs)[i] == es[i] by {
        assert((2 * i) % 2 == 0 && (2 * i) / 2 == i);
        assert((2 * i + 1) % 2 == 1 && (2 * i + 1) / 2 == i);
    }
    assert(pairs_of(xs) =~= es);
}

proof fn lemma_entry_items_front(es: Seq<(EdnValue, EdnValue)>)
    requires
        es.len() >= 1,
    ensures
        entry_items(es) == seq![es[0].0, es[0].1] + entry_items(es.subrange(1, es.len() as int)),
{
    let rest = es.subrange(1, es.len() as int);
    assert forall|i: int| 0 <= i < entry_items(es).len() implies #[trigger] entry_items(es)[i] == (seq![es[0].0, es[0].1] + entry_items(rest))[i] by {
        if i >= 2 {
            assert((i - 2) / 2 == i / 2 - 1);
            assert((i - 2) % 2 == i % 2);
        }
    }
    assert(entry_items(es) =~= seq![es[0].0, es[0].1] + entry_items(rest));
}

proof fn lemma_set_insert_last(ys: Seq<EdnValue>, x: EdnValue)
    requires
        forall|i: int| 0 <= i < ys.len() ==> compare_values(#[trigger] ys[i], x) < 0,
    ensures
        set_insert(ys, x) == ys.push(x),
    decreases ys.len(),
{
    if ys.len() > 0 {
        law_total_order(ys[0], x, x);
        assert forall|i: int| 0 <= i < ys.drop_first().len() implies compare_values(#[trigger] ys.drop_first()[i], x) < 0 by {
            assert(ys.drop_first()[i] == ys[i + 1]);
        }
        lemma_set_insert_last(ys.drop_first(), x);
        assert(seq![ys[0]] + ys.drop_first().push(x) =~= ys.push(x));
    } else {
        assert(seq![x] =~= ys.push(x));
    }
}

/// A strictly ascending sequence is its own set.
proof fn lemma_set_of_ascending(xs: Seq<EdnValue>)
    requires
        strictly_ascending(xs),
    ensures
        set_of(xs) == xs,
    decreases xs.len(),
{
    if xs.len() > 0 {
        let front = xs.drop_last();
        assert(strictly_ascending(front)) by {
            assert forall|i: int, j: int| 0 <= i < j < front.len() implies compare_values(#[trigger] front[i], #[trigger] front[j]) < 0 by {
                assert(front[i] == xs[i] && front[j] == xs[j]);
            }
        }
        lemma_set_of_ascending(front);
        assert forall|i: int| 0 <= i < front.len() implies compare_values(#[trigger] front[i], xs.last()) < 0 by {
            assert(front[i] == xs[i]);
            assert(xs.last() == xs[xs.len() - 1]);
        }
        lemma_set_insert_last(front, xs.last());
        assert(front.push(xs.last()) =~= xs);
    }
}

proof fn lemma_map_insert_last(ys: Seq<(EdnValue, EdnValue)>, k: EdnValue, v: EdnValue)
    requires
        forall|i: int| 0 <= i < ys.len() ==> compare_values(#[trigger] ys[i].0, k) < 0,
    ensures
        map_insert(ys, k, v) == ys.push((k, v)),
    decreases ys.len(),
{
    if ys.len() > 0 {
        law_total_order(ys[0].0, k, k);
        assert forall|i: int| 0 <= i < ys.drop_first().len() implies compare_values(#[trigger] ys.drop_first()[i].0, k) < 0 by {
            assert(ys.drop_first()[i] == ys[i + 1]);
        }
        lemma_map_insert_last(ys.drop_first(), k, v);
        assert(seq![ys[0]] + ys.drop_first().push((k, v)) =~= ys.push((k, v)));
    } else {
        assert(seq![(k, v)] =~= ys.push((k, v)));
    }
}

/// Entries whose keys are strictly ascending are their own map.
proof fn lemma_map_of_ascending(es: Seq<(EdnValue, EdnValue)>)
    requires
        keys_ascending(es),
    ensures
        map_of(es) == es,
    decreases es.len(),
{
    if es.len() > 0 {
        let front = es.drop_last();
        assert(keys_ascending(front)) by {
            assert forall|i: int, j: int| 0 <= i < j < front.len() implies compare_values(#[trigger] front[i].0, #[trigger] front[j].0) < 0 by {
                assert(front[i] == es[i] && front[j] == es[j]);
            }
        }
        lemma_map_of_ascending(front);
        assert forall|i: int| 0 <= i < front.len() implies compare_values(#[trigger] front[i].0, es.last().0) < 0 by {
            assert(front[i] == es[i]);
            assert(es.last() == es[es.len() - 1]);
        }
        lemma_map_insert_last(front, es.last().0, es.last().1);
        assert(front.push((es.last().0, es.last().1)) =~= es);
    }
}

/// A plain value placed at `p` (after whitespace from `p0`) and followed by the end of a
/// token reads as itself; where it starts with a macro character, that macro reads it.
proof fn lemma_read_plain(s: Seq<char>, p0: int, p: int, v: EdnValue)
    requires
        plain(v),
        0 <= p0 <= p,
        skip_ws(s, p0) == p,
        placed(s, p, edn_text(v)),
        ends_at(s, p + edn_text(v).len()),
    ensures
        read_at(s, p0) == Parsed::Done(v, p + edn_text(v).len()),
        macro_char(s[p]) ==> macro_at(s, p + 1, s[p]) == Parsed::Done(Some(v), p + edn_text(v).len()),
    decreases v, 2nat,
{
    let t = edn_text(v);
    lemma_text_start(v);
    lemma_placed_char(s, p, t, 0);
    match v {
        EdnValue::Nil => {
            reveal_strlit("nil");
            lemma_read_token(s, p0, p, v);
        },
        EdnValue::Bool(_) => {
            reveal_strlit("true");
            reveal_strlit("false");
            lemma_read_token(s, p0, p, v);
        },
        EdnValue::Symbol(_) => { lemma_read_token(s, p0, p, v); },
        EdnValue::Keyword(_) => {
            assert(t[0] == ':');
            lemma_read_token(s, p0, p, v);
        },
        EdnValue::Int(k) => {
            lemma_int_text(k);
            lemma_read_number(s, p0, p, v);
        },
        EdnValue::BigInt(k) => {
            lemma_big_text(k);
            lemma_read_number(s, p0, p, v);
        },
        EdnValue::Str(x) => { lemma_read_string(s, p0, p, x); },
        EdnValue::Char(c) => { lemma_read_char(s, p0, p, c); },
        EdnValue::Float(f) => {
            match f {
                FloatModel::Finite(u, sc) => { lemma_float_text(u, sc); },
                _ => {},
            }
            lemma_read_number(s, p0, p, v);
        },
        EdnValue::Decimal(_, _) => {},
        EdnValue::Ratio(_, _) => {},
        EdnValue::List(_) => { lemma_read_sequence(s, p0, p, v); },
        EdnValue::Vector(_) => { lemma_read_sequence(s, p0, p, v); },
        EdnValue::SetOf(_) => { lemma_read_set(s, p0, p, v); },
        EdnValue::MapOf(_) => { lemma_read_map(s, p0, p, v); },
        EdnValue::Tagged(_, _) => { lemma_read_tagged(s, p0, p, v); },
    }
}

/// A list or vector of plain values reads as itself.
#[verifier::spinoff_prover]
proof fn lemma_read_sequence(s: Seq<char>, p0: int, p: int, v: EdnValue)
    requires
        v is List || v is Vector,
        plain(v),
        0 <= p0 <= p,
        skip_ws(s, p0) == p,
        placed(s, p, edn_text(v)),
    ensures
        read_at(s, p0) == Parsed::Done(v, p + edn_text(v).len()),
        macro_at(s, p + 1, s[p]) == Parsed::Done(Some(v), p + edn_text(v).len()),
    decreases v, 1nat,
{
    let t = edn_text(v);
    let (xs, open, close) = match v {
        EdnValue::List(xs) => (xs, '(', ')'),
        EdnValue::Vector(xs) => (xs, '[', ']'),
        _ => (Seq::empty(), ' ', ' '),
    };
    let m = items_text(xs);
    assert(t == seq![open] + m + seq![close]);
    lemma_placed_split(s, p, seq![open] + m, seq![close]);
    lemma_placed_split(s, p, seq![open], m);
    lemma_placed_char(s, p + 1 + m.len(), seq![close], 0);
    lemma_placed_char(s, p, seq![open], 0);
    assert forall|i: int| 0 <= i < xs.len() implies plain(#[trigger] xs[i]) by {}
    lemma_items_start(s, p + 1, xs, m.len() as int);
    lemma_read_items(s, p + 1, p + 1, xs, Seq::empty(), close);
    assert(Seq::<EdnValue>::empty() + xs =~= xs);
}

/// A set of plain values, in ascending order, reads as itself.
#[verifier::spinoff_prover]
#[verifier::rlimit(100)]
proof fn lemma_read_set(s: Seq<char>, p0: int, p: int, v: EdnValue)
    requires
        v is SetOf,
        plain(v),
        0 <= p0 <= p,
        skip_ws(s, p0) == p,
        placed(s, p, edn_text(v)),
    ensures
        read_at(s, p0) == Parsed::Done(v, p + edn_text(v).len()),
        macro_at(s, p + 1, s[p]) == Parsed::Done(Some(v), p + edn_text(v).len()),
    decreases v, 1nat,
{
    let t = edn_text(v);
    let n = t.len() as int;
    let xs = v->SetOf_0;
    let m = items_text(xs);
    assert(t == seq!['#', '{'] + m + seq!['}']);
    lemma_placed_split(s, p, seq!['#', '{'] + m, seq!['}']);
    lemma_placed_split(s, p, seq!['#', '{'], m);
    lemma_placed_char(s, p + 2 + m.len(), seq!['}'], 0);
    lemma_placed_char(s, p, seq!['#', '{'], 0);
    lemma_placed_char(s, p, seq!['#', '{'], 1);
    assert forall|i: int| 0 <= i < xs.len() implies plain(#[trigger] xs[i]) by {}
    lemma_items_start(s, p + 2, xs, m.len() as int);
    lemma_read_items(s, p + 2, p + 2, xs, Seq::empty(), '}');
    assert(Seq::<EdnValue>::empty() + xs =~= xs);
    lemma_set_of_ascending(xs);
    assert(dispatch_at(s, p + 1) == Parsed::Done(Some(v), p + n));
}

/// A map of plain keys and values, keys ascending, reads as itself.
#[verifier::spinoff_prover]
proof fn lemma_read_map(s: Seq<char>, p0: int, p: int, v: EdnValue)
    requires
        v is MapOf,
        plain(v),
        0 <= p0 <= p,
        skip_ws(s, p0) == p,
        placed(s, p, edn_text(v)),
    ensures
        read_at(s, p0) == Parsed::Done(v, p + edn_text(v).len()),
        macro_at(s, p + 1, s[p]) == Parsed::Done(Some(v), p + edn_text(v).len()),
    decreases v, 1nat,
{
    let t = edn_text(v);
    let es = v->MapOf_0;
    let items = entry_items(es);
    let r = p + t.len();
    lemma_read_map_body(s, p, v);
    assert(keys_ascending(es));
    lemma_pairs_of_entry_items(es);
    lemma_map_of_ascending(es);
    assert(map_of(pairs_of(items)) == es);
    assert(macro_at(s, p + 1, '{') == Parsed::Done(Some(v), r));
}

/// The entries of a plain map read as its keys and values.
#[verifier::spinoff_prover]
proof fn lemma_read_map_body(s: Seq<char>, p: int, v: EdnValue)
    requires
        v is MapOf,
        plain(v),
        0 <= p,
        placed(s, p, edn_text(v)),
    ensures
        s[p] == '{',
        list_at(s, p + 1, '}', Seq::empty()) == Parsed::Done(entry_items(v->MapOf_0), p + edn_text(v).len()),
    decreases v, 0nat,
{
    let t = edn_text(v);
    let es = v->MapOf_0;
    let m = entries_text(es);
    assert(t == seq!['{'] + m + seq!['}']);
    lemma_placed_split(s, p, seq!['{'] + m, seq!['}']);
    lemma_placed_split(s, p, seq!['{'], m);
    lemma_placed_char(s, p + 1 + m.len(), seq!['}'], 0);
    lemma_placed_char(s, p, seq!['{'], 0);
    assert forall|i: int| 0 <= i < es.len() implies plain(#[trigger] es[i].0) && plain(es[i].1) by {}
    if es.len() > 0 {
        lemma_entries_front(es);
        lemma_text_start(es[0].0);
        lemma_placed_char(s, p + 1, m, 0);
    }
    assert(skip_ws(s, p + 1) == p + 1);
    lemma_read_entries(s, p + 1, p + 1, es, Seq::empty());
    assert(Seq::<EdnValue>::empty() + entry_items(es) =~= entry_items(es));
}

/// An `inst` or `uuid` tagged plain value reads as itself.
#[verifier::spinoff_prover]
#[verifier::rlimit(40)]
proof fn lemma_read_tagged(s: Seq<char>, p0: int, p: int, v: EdnValue)
    requires
        v is Tagged,
        plain(v),
        0 <= p0 <= p,
        skip_ws(s, p0) == p,
        placed(s, p, edn_text(v)),
        ends_at(s, p + edn_text(v).len()),
    ensures
        read_at(s, p0) == Parsed::Done(v, p + edn_text(v).len()),
        macro_at(s, p + 1, s[p]) == Parsed::Done(Some(v), p + edn_text(v).len()),
    decreases v, 1nat,
{
    reveal_strlit("inst");
    reveal_strlit("uuid");
    reveal_strlit("nil");
    reveal_strlit("true");
    reveal_strlit("false");
    let t = edn_text(v);
    let n = t.len() as int;
    let name = v->Tagged_0;
    let x = *v->Tagged_1;
    let xt = edn_text(x);
    assert(t == seq!['#'] + name + seq![' '] + xt);
    lemma_placed_split(s, p, seq!['#'] + name + seq![' '], xt);
    lemma_placed_split(s, p, seq!['#'] + name, seq![' ']);
    lemma_placed_split(s, p, seq!['#'], name);
    lemma_placed_char(s, p, seq!['#'], 0);
    let r = p + 1 + name.len();
    lemma_placed_char(s, r, seq![' '], 0);
    assert(s[r] == ' ');
    assert(simple_name(name)) by {
        assert forall|i: int| 1 <= i < name.len() implies name_rest_char(#[trigger] name[i]) by {}
    }
    let sym = EdnValue::Symbol(name);
    assert(plain(sym));
    assert(edn_text(sym) == name);
    lemma_placed_char(s, p + 1, name, 0);
    lemma_read_token(s, p + 1, p + 1, sym);
    lemma_text_start(x);
    lemma_placed_char(s, r + 1, xt, 0);
    assert(skip_ws(s, r + 1) == r + 1);
    assert(skip_ws(s, r) == r + 1);
    lemma_read_plain(s, r, r + 1, x);
    assert(tagged_at(s, p + 1) == Parsed::Done(Some(v), p + n));
    assert(dispatch_at(s, p + 1) == Parsed::Done(Some(v), p + n));
}

/// Where the items' text stands at `p`, closed at `p + len`, the position `p` is past
/// any whitespace.
proof fn lemma_items_start(s: Seq<char>, p: int, xs: Seq<EdnValue>, len: int)
    requires
        forall|i: int| 0 <= i < xs.len() ==> plain(#[trigger] xs[i]),
        len == items_text(xs).len(),
        placed(s, p, items_text(xs)),
        p + len < s.len(),
        s[p + len] == ')' || s[p + len] == ']' || s[p + len] == '}',
    ensures
        skip_ws(s, p) == p,
{
    if xs.len() > 0 {
        lemma_items_front(xs);
        assert(plain(xs[0]));
        lemma_text_start(xs[0]);
        lemma_placed(s, p, items_text(xs));
        assert(s[p] == items_text(xs)[0]);
    }
}

/// Reading one item of a list, placed at `p` after whitespace from `p0`, moves the list
/// past it.
proof fn lemma_list_step(s: Seq<char>, p0: int, p: int, x: EdnValue, acc: Seq<EdnValue>, delim: char)
    requires
        plain(x),
        delim == ')' || delim == ']' || delim == '}',
        0 <= p0 <= p,
        skip_ws(s, p0) == p,
        placed(s, p, edn_text(x)),
        ends_at(s, p + edn_text(x).len()),
    ensures
        p0 < p + edn_text(x).len(),
        list_at(s, p0, delim, acc) == list_at(s, p + edn_text(x).len(), delim, acc.push(x)),
    decreases x, 3nat,
{
    lemma_text_start(x);
    lemma_placed(s, p, edn_text(x));
    lemma_read_plain(s, p, p, x);
    assert(s[p] == edn_text(x)[0]);
}

/// The items' text placed at `p` (after whitespace from `p0`) and closed by `delim` reads
/// as the items, after `acc`.
proof fn lemma_read_items(s: Seq<char>, p0: int, p: int, xs: Seq<EdnValue>, acc: Seq<EdnValue>, delim: char)
    requires
        forall|i: int| 0 <= i < xs.len() ==> plain(#[trigger] xs[i]),
        delim == ')' || delim == ']' || delim == '}',
        0 <= p0 <= p,
        skip_ws(s, p0) == p,
        placed(s, p, items_text(xs)),
        p + items_text(xs).len() < s.len(),
        s[p + items_text(xs).len()] == delim,
    ensures
        list_at(s, p0, delim, acc) == Parsed::Done(acc + xs, p + items_text(xs).len() + 1),
    decreases xs, 0nat,
{
    if xs.len() == 0 {
        assert(acc + xs =~= acc);
    } else {
        let x = xs[0];
        let rest = xs.subrange(1, xs.len() as int);
        lemma_items_front(xs);
        let n0 = edn_text(x).len() as int;
        let tail = if xs.len() == 1 { Seq::<char>::empty() } else { seq![' '] + items_text(rest) };
        lemma_placed_split(s, p, edn_text(x), tail);
        assert(plain(x));
        assert forall|i: int| 0 <= i < rest.len() implies plain(#[trigger] rest[i]) by {
            assert(rest[i] == xs[i + 1]);
        }
        let r = p + n0;
        let next = if xs.len() == 1 { r } else { r + 1 };
        if xs.len() == 1 {
            assert(tail.len() == 0);
            assert(s[r] == delim);
            assert(rest.len() == 0);
            assert(items_text(rest).len() == 0);
            assert(skip_ws(s, r) == r);
        } else {
            lemma_placed_split(s, r, seq![' '], items_text(rest));
            lemma_placed_char(s, r, seq![' '], 0);
            assert(s[r] == ' ');
            assert(items_text(xs).len() == n0 + 1 + items_text(rest).len());
            lemma_items_start(s, r + 1, rest, items_text(rest).len() as int);
            assert(skip_ws(s, r) == r + 1);
        }
        lemma_list_step(s, p0, p, x, acc, delim);
        lemma_read_items(s, r, next, rest, acc.push(x), delim);
        assert(acc.push(x) + rest =~= acc + xs);
    }
}

/// The entries' text placed at `p` (after whitespace from `p0`) and closed by `}` reads as
/// the keys and values, after `acc`.
proof fn lemma_read_entries(s: Seq<char>, p0: int, p: int, es: Seq<(EdnValue, EdnValue)>, acc: Seq<EdnValue>)
    requires
        forall|i: int| 0 <= i < es.len() ==> plain(#[trigger] es[i].0) && plain(es[i].1),
        0 <= p0 <= p,
        skip_ws(s, p0) == p,
        placed(s, p, entries_text(es)),
        p + entries_text(es).len() < s.len(),
        s[p + entries_text(es).len()] == '}',
    ensures
        list_at(s, p0, '}', acc) == Parsed::Done(acc + entry_items(es), p + entries_text(es).len() + 1),
    decreases es, 0nat,
{
    if es.len() == 0 {
        assert(entry_items(es) =~= Seq::<EdnValue>::empty());
        assert(acc + entry_items(es) =~= acc);
    } else {
        let k = es[0].0;
        let v = es[0].1;
        assert(plain(k) && plain(v));
        let rest = es.subrange(1, es.len() as int);
        assert forall|i: int| 0 <= i < rest.len() implies plain(#[trigger] rest[i].0) && plain(rest[i].1) by {
            assert(rest[i] == es[i + 1]);
        }
        lemma_entries_front(es);
        lemma_entry_items_front(es);
        let nk = edn_text(k).len() as int;
        let nv = edn_text(v).len() as int;
        let tail = if es.len() == 1 { Seq::<char>::empty() } else { seq![',', ' '] + entries_text(rest) };
        lemma_placed_split(s, p, edn_text(k) + seq![' '] + edn_text(v), tail);
        lemma_placed_split(s, p, edn_text(k) + seq![' '], edn_text(v));
        lemma_placed_split(s, p, edn_text(k), seq![' ']);
        lemma_placed_char(s, p + nk, seq![' '], 0);
        let a = p + nk;
        let b = a + 1;
        let r = b + nv;
        assert(s[a] == ' ');
        lemma_text_start(v);
        lemma_placed(s, b, edn_text(v));
        assert(s[b] == edn_text(v)[0]);
        assert(skip_ws(s, b) == b);
        assert(skip_ws(s, a) == b);
        let next = if es.len() == 1 { r } else { r + 2 };
        if es.len() == 1 {
            assert(tail.len() == 0);
            assert(s[r] == '}');
            assert(rest.len() == 0);
            assert(entries_text(rest).len() == 0);
            assert(skip_ws(s, r) == r);
        } else {
            lemma_placed_split(s, r, seq![',', ' '], entries_text(rest));
            lemma_placed_char(s, r, seq![',', ' '], 0);
            lemma_placed_char(s, r, seq![',', ' '], 1);
            assert(s[r] == ',' && s[r + 1] == ' ');
            lemma_entries_front(rest);
            lemma_text_start(rest[0].0);
            lemma_placed(s, r + 2, entries_text(rest));
            assert(s[r + 2] == entries_text(rest)[0]);
            assert(skip_ws(s, r + 2) == r + 2);
            assert(skip_ws(s, r + 1) == r + 2);
            assert(skip_ws(s, r) == r + 2);
        }
        lemma_list_step(s, p0, p, k, acc, '}');
        lemma_list_step(s, a, b, v, acc.push(k), '}');
        lemma_read_entries(s, r, next, rest, acc.push(k).push(v));
        assert(acc.push(k).push(v) + entry_items(rest) =~= acc + entry_items(es));
    }
}

/// The printed text of a plain value reads back as that value, the reader stopping at
/// the end of the text.
pub proof fn law_plain_text_reads_back(v: EdnValue)
    requires
        plain(v),
    ensures
        read_at(edn_text(v), 0) == Parsed::Done(v, edn_text(v).len() as int),
{
    let s = edn_text(v);
    lemma_text_start(v);
    assert(s.subrange(0, s.len() as int) =~= s);
    assert(skip_ws(s, 0) == 0);
    lemma_read_plain(s, 0, 0, v);
}

/// Printing again changes nothing: where the first form of a text reads as a plain value,
/// printing the printed text gives that text once more.
pub proof fn law_printing_is_stable(
    input: Seq<char>,
    first: Result<String, String>,
    second: Result<String, String>,
)
    requires
        read_at(input, 0) matches Parsed::Done(v, _) && plain(v),
        printed(read_at(input, 0), first),
        first matches Ok(t) && printed(read_at(t@, 0), second),
    ensures
        first matches Ok(t) && second matches Ok(u) && u@ == t@,
{
    let v = read_at(input, 0)->Done_0;
    law_plain_text_reads_back(v);
}

} // verus!
