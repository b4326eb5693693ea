//! The text of EDN values, as the reader's values print themselves.
use vstd::prelude::*;
use crate::bigint::float_text;
use crate::bigint::BigInteger;
use crate::decimal::{int_text, push_i64_text};
use crate::numeric::{decimal_display, decimal_text};
use crate::edn::{lemma_set_elements, lemma_map_entries, Edn, EdnValue, FloatValue, FloatModel, models, entry_models, lemma_models, lemma_entry_models};
use crate::text::chars_of;
use vstd::string::StringExecFns;

verus! {

/// How a character of a string is written inside the quotes, as the Clojure printer
/// writes it: `\t`, `\r`, `\n`, `\b`, `\f`, `\\` and `\"` escaped, any other character
/// as itself.
pub open spec fn escaped_char(c: char) -> Seq<char> {
    if c == '\t' {
        seq!['\\', 't']
    } else if c == '\r' {
        seq!['\\', 'r']
    } else if c == '\n' {
        seq!['\\', 'n']
    } else if c == '\x08' {
        seq!['\\', 'b']
    } else if c == '\x0c' {
        seq!['\\', 'f']
    } else if c == '\\' {
        seq!['\\', '\\']
    } else if c == '"' {
        seq!['\\', '"']
    } else {
        seq![c]
    }
}

/// How a character is written after its `\`: its name where it has one (`newline`,
/// `space`, `tab`, `backspace`, `formfeed`, `return`), else the character itself.
pub open spec fn char_name(c: char) -> Seq<char> {
    if c == '\n' {
        "newline"@
    } else if c == ' ' {
        "space"@
    } else if c == '\t' {
        "tab"@
    } else if c == '\x08' {
        "backspace"@
    } else if c == '\x0c' {
        "formfeed"@
    } else if c == '\r' {
        "return"@
    } else {
        seq![c]
    }
}

/// `s` with each `\r\n` replaced by `\n`, from left to right.
pub open spec fn crlf_to_lf(s: Seq<char>) -> Seq<char>
    decreases s.len(),
{
    if s.len() == 0 {
        s
    } else if s.len() >= 2 && s[0] == '\r' && s[1] == '\n' {
        seq!['\n'] + crlf_to_lf(s.skip(2))
    } else {
        seq![s[0]] + crlf_to_lf(s.drop_first())
    }
}

/// The escaped characters of `s`.
pub open spec fn escaped(s: Seq<char>) -> Seq<char>
    decreases s.len(),
{
    if s.len() == 0 {
        s
    } else {
        escaped(s.drop_last()) + escaped_char(s.last())
    }
}

/// The text of a value: `nil`, `true`, `false`; strings quoted and escaped, line ends
/// `\r\n` as `\n`; characters after `\`, by name where they have one; keywords after
/// `:`; integers in decimal,
/// big ones with `N`; `inf`, `-inf`, `NaN`; lists `( )`, vectors `[ ]`, sets `#{ }` with
/// their items separated by spaces; maps `{k v, k v}`; tagged elements `#tag value`.
pub open spec fn edn_text(e: EdnValue) -> Seq<char>
    decreases e,
{
    match e {
        EdnValue::Nil => "nil"@,
        EdnValue::Bool(b) => if b { "true"@ } else { "false"@ },
        EdnValue::Str(s) => seq!['"'] + escaped(crlf_to_lf(s)) + seq!['"'],
        EdnValue::Char(c) => seq!['\\'] + char_name(c),
        EdnValue::Symbol(s) => s,
        EdnValue::Keyword(s) => seq![':'] + s,
        EdnValue::Int(n) => int_text(n),
        EdnValue::BigInt(n) => int_text(n) + seq!['N'],
        EdnValue::Float(f) => match f {
            FloatModel::NegInfinity => "-inf"@,
            FloatModel::Finite(u, s) => float_text(u, s),
            FloatModel::Infinity => "inf"@,
            FloatModel::NaN => "NaN"@,
        },
        EdnValue::Decimal(u, s) => decimal_display(int_text(u), s) + seq!['M'],
        EdnValue::Ratio(p, q) => ratio_text(p, q) + seq!['R'],
        EdnValue::List(xs) => seq!['('] + items_text(xs) + seq![')'],
        EdnValue::Vector(xs) => seq!['['] + items_text(xs) + seq![']'],
        EdnValue::SetOf(xs) => seq!['#', '{'] + items_text(xs) + seq!['}'],
        EdnValue::MapOf(es) => seq!['{'] + entries_text(es) + seq!['}'],
        EdnValue::Tagged(t, x) => seq!['#'] + t + seq![' '] + edn_text(*x),
    }
}

/// A ratio as `num` prints it: the numerator, then `/` and the denominator unless the
/// denominator is one.
pub open spec fn ratio_text(p: int, q: int) -> Seq<char> {
    if q == 1 {
        int_text(p)
    } else {
        int_text(p) + seq!['/'] + int_text(q)
    }
}

/// The texts of values, separated by spaces.
pub open spec fn items_text(xs: Seq<EdnValue>) -> Seq<char>
    decreases xs,
{
    if xs.len() == 0 {
        Seq::empty()
    } else if xs.len() == 1 {
        edn_text(xs[0])
    } else {
        items_text(xs.drop_last()) + seq![' '] + edn_text(xs.last())
    }
}

/// The texts of map entries, key and value separated by a space, entries by `, `.
pub open spec fn entries_text(es: Seq<(EdnValue, EdnValue)>) -> Seq<char>
    decreases es,
{
    if es.len() == 0 {
        Seq::empty()
    } else if es.len() == 1 {
        edn_text(es[0].0) + seq![' '] + edn_text(es[0].1)
    } else {
        entries_text(es.drop_last()) + seq![',', ' '] + edn_text(es.last().0) + seq![' '] + edn_text(
            es.last().1,
        )
    }
}

fn push_escaped_char(out: &mut String, c: char)
    ensures
        final(out)@ == old(out)@ + escaped_char(c),
{
    let ghost start = out@;
    if c == '\t' {
        out.push('\\');
        out.push('t');
    } else if c == '\r' {
        out.push('\\');
        out.push('r');
    } else if c == '\n' {
        out.push('\\');
        out.push('n');
    } else if c == '\x08' {
        out.push('\\');
        out.push('b');
    } else if c == '\x0c' {
        out.push('\\');
        out.push('f');
    } else if c == '\\' {
        out.push('\\');
        out.push('\\');
    } else if c == '"' {
        out.push('\\');
        out.push('"');
    } else {
        out.push(c);
    }
    assert(out@ =~= start + escaped_char(c));
}

fn push_char_name(out: &mut String, c: char)
    ensures
        final(out)@ == old(out)@ + char_name(c),
{
    let ghost start = out@;
    if c == '\n' {
        out.append("newline");
    } else if c == ' ' {
        out.append("space");
    } else if c == '\t' {
        out.append("tab");
    } else if c == '\x08' {
        out.append("backspace");
    } else if c == '\x0c' {
        out.append("formfeed");
    } else if c == '\r' {
        out.append("return");
    } else {
        out.push(c);
        assert(out@ =~= start + char_name(c));
    }
}

/// Appends the quoted, escaped text of the string `s` to `out`.
fn push_quoted(out: &mut String, s: &String)
    ensures
        final(out)@ == old(out)@ + seq!['"'] + escaped(crlf_to_lf(s@)) + seq!['"'],
{
    let cs = chars_of(s.as_str());
    let ghost start = out@;
    out.push('"');
    let ghost opened = out@;
    // `lf` holds the characters of `crlf_to_lf(cs[..i])`, as they were escaped.
    let ghost mut lf: Seq<char> = Seq::empty();
    let mut i: usize = 0;
    assert(cs@.skip(0) =~= cs@);
    assert(escaped(lf) =~= Seq::<char>::empty());
    while i < cs.len()
        invariant
            0 <= i <= cs@.len(),
            out@ == opened + escaped(lf),
            lf + crlf_to_lf(cs@.skip(i as int)) == crlf_to_lf(cs@),
        decreases cs@.len() - i,
    {
        let ghost rest = cs@.skip(i as int);
        if cs[i] == '\r' && i + 1 < cs.len() && cs[i + 1] == '\n' {
            push_escaped_char(out, '\n');
            proof {
                assert(rest.skip(2) =~= cs@.skip(i + 2));
                assert((lf.push('\n')).drop_last() =~= lf);
                assert(lf + crlf_to_lf(rest) =~= lf.push('\n') + crlf_to_lf(cs@.skip(i + 2)));
                lf = lf.push('\n');
            }
            i = i + 2;
        } else {
            let c = cs[i];
            push_escaped_char(out, c);
            proof {
                assert(rest.drop_first() =~= cs@.skip(i + 1));
                assert((lf.push(c)).drop_last() =~= lf);
                assert(lf + crlf_to_lf(rest) =~= lf.push(c) + crlf_to_lf(cs@.skip(i + 1)));
                lf = lf.push(c);
            }
            i = i + 1;
        }
    }
    assert(cs@.skip(i as int) =~= Seq::<char>::empty());
    assert(lf =~= crlf_to_lf(s@));
    out.push('"');
    assert(out@ =~= start + seq!['"'] + escaped(crlf_to_lf(s@)) + seq!['"']);
}

/// Appends the text of `e` to `out` (see `edn_text`).
pub fn push_text(out: &mut String, e: &Edn)
    ensures
        final(out)@ == old(out)@ + edn_text(e.model()),
    decreases e,
{
    let ghost start = out@;
    match e {
        Edn::Nil => {
            out.append("nil");
        },
        Edn::Bool(b) => {
            if *b {
                out.append("true");
            } else {
                out.append("false");
            }
        },
        Edn::String(s) => {
            push_quoted(out, s);
        },
        Edn::Char(c) => {
            out.push('\\');
            push_char_name(out, *c);
        },
        Edn::Symbol(s) => {
            out.append(s.as_str());
        },
        Edn::Keyword(s) => {
            out.push(':');
            out.append(s.as_str());
        },
        Edn::Int(n) => {
            push_i64_text(out, *n);
        },
        Edn::BigInt(n) => {
            n.push_text(out);
            out.push('N');
        },
        Edn::Float(f) => {
            match f {
                FloatValue::NegInfinity => out.append("-inf"),
                FloatValue::Finite(x) => x.value().unscaled().push_float_text(x.value().scale(), out),
                FloatValue::Infinity => out.append("inf"),
                FloatValue::NaN => out.append("NaN"),
            }
        },
        Edn::BigDecimal(d) => {
            let mut u = String::new();
            d.unscaled().push_text(&mut u);
            proof {
                assert(u@ =~= int_text(d.unscaled_value()));
                crate::numeric::lemma_decimal_integer(d.unscaled_value());
            }
            let t = decimal_text(u.as_str(), d.scale());
            out.append(t.as_str());
            out.push('M');
        },
        Edn::BigRational(q) => {
            q.numer().push_text(out);
            let one = q.denom().compare(&BigInteger::one());
            if one != 0 {
                out.push('/');
                q.denom().push_text(out);
            }
            out.push('R');
        },
        Edn::List(xs) => {
            out.push('(');
            push_items(out, xs);
            out.push(')');
        },
        Edn::Vec(xs) => {
            out.push('[');
            push_items(out, xs);
            out.push(']');
        },
        Edn::SetOf(xs) => {
            out.push('#');
            out.push('{');
            proof { lemma_set_elements(xs); }
            push_items(out, &xs.items);
            out.push('}');
        },
        Edn::MapOf(es) => {
            out.push('{');
            proof { lemma_map_entries(es); }
            push_entries(out, &es.entries);
            out.push('}');
        },
        Edn::TaggedElement(t, x) => {
            out.push('#');
            out.append(t.as_str());
            out.push(' ');
            push_text(out, x);
        },
    }
    assert(out@ =~= start + edn_text(e.model()));
}

fn push_items(out: &mut String, xs: &Vec<Edn>)
    ensures
        final(out)@ == old(out)@ + items_text(models(xs@)),
    decreases xs,
{
    proof { lemma_models(xs@); }
    let ghost start = out@;
    let ghost ms = models(xs@);
    let mut i: usize = 0;
    while i < xs.len()
        invariant
            0 <= i <= xs@.len(),
            ms == models(xs@),
            ms.len() == xs@.len(),
            forall|j: int| 0 <= j < xs@.len() ==> #[trigger] ms[j] == xs@[j].model(),
            out@ == start + items_text(ms.take(i as int)),
        decreases xs@.len() - i,
    {
        if i > 0 {
            out.push(' ');
        }
        push_text(out, &xs[i]);
        proof {
            let t = ms.take(i + 1);
            assert(t.drop_last() =~= ms.take(i as int));
            assert(t.last() == xs@[i as int].model());
            if i == 0 {
                assert(ms.take(0) =~= Seq::<EdnValue>::empty());
                assert(out@ =~= start + items_text(t));
            } else {
                assert(out@ =~= start + items_text(t));
            }
        }
        i = i + 1;
    }
    assert(ms.take(i as int) =~= ms);
}

fn push_entries(out: &mut String, es: &Vec<(Edn, Edn)>)
    ensures
        final(out)@ == old(out)@ + entries_text(entry_models(es@)),
    decreases es,
{
    proof { lemma_entry_models(es@); }
    let ghost start = out@;
    let ghost ms = entry_models(es@);
    let mut i: usize = 0;
    while i < es.len()
        invariant
            0 <= i <= es@.len(),
            ms == entry_models(es@),
            ms.len() == es@.len(),
            forall|j: int| 0 <= j < es@.len() ==> #[trigger] ms[j] == (es@[j].0.model(), es@[j].1.model()),
            out@ == start + entries_text(ms.take(i as int)),
        decreases es@.len() - i,
    {
        if i > 0 {
            out.push(',');
            out.push(' ');
        }
        push_text(out, &es[i].0);
        out.push(' ');
        push_text(out, &es[i].1);
        proof {
            let t = ms.take(i + 1);
            assert(t.drop_last() =~= ms.take(i as int));
            assert(t.last() == ms[i as int]);
            if i == 0 {
                assert(ms.take(0) =~= Seq::<(EdnValue, EdnValue)>::empty());
                assert(t[0] == ms[0]);
                assert(out@ =~= start + entries_text(t));
            } else {
                assert(out@ =~= start + entries_text(t));
            }
        }
        i = i + 1;
    }
    assert(ms.take(i as int) =~= ms);
}

impl Edn {
    /// The printed text of the value (see `edn_text`).
    pub fn to_text(&self) -> (r: String)
        ensures
            r@ == edn_text(self.model()),
    {
        let mut out = String::new();
        push_text(&mut out, self);
        assert(out@ =~= edn_text(self.model()));
        out
    }
}

} // verus!
