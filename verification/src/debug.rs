//! The debug text of EDN values, as the derived `Debug` of the value type writes it;
//! the reader quotes it in one of its error messages.
use vstd::prelude::*;
use crate::bigint::float_text;
use crate::decimal::{int_text, push_i64_text};
use crate::numeric::{decimal_debug, decimal_debug_text};
use crate::edn::{lemma_set_elements, lemma_map_entries, Edn, EdnValue, FloatValue, FloatModel, models, entry_models, lemma_models, lemma_entry_models};
use vstd::string::StringExecFns;

verus! {

/// The text that `Debug` writes for a string: quoted and escaped (`str::escape_debug`).
pub uninterp spec fn str_debug(s: Seq<char>) -> Seq<char>;

/// The text that `Debug` writes for a character: quoted and escaped.
pub uninterp spec fn char_debug(c: char) -> Seq<char>;

/// Formats `s` with `{:?}`; the result is named, not stated.
#[verifier::external_body]
fn debug_str(s: &str) -> (r: String)
    ensures
        r@ == str_debug(s@),
{
    format!("{:?}", s)
}

/// Formats `c` with `{:?}`; the result is named, not stated.
#[verifier::external_body]
fn debug_char(c: char) -> (r: String)
    ensures
        r@ == char_debug(c),
{
    format!("{:?}", c)
}

/// The debug text of a float: what `f64`'s `Debug` writes for the infinities and NaN; a
/// finite float by its text (its `f64` is not computed here).
pub open spec fn float_debug(f: FloatModel) -> Seq<char> {
    match f {
        FloatModel::NegInfinity => "-inf"@,
        FloatModel::Finite(u, s) => float_text(u, s),
        FloatModel::Infinity => "inf"@,
        FloatModel::NaN => "NaN"@,
    }
}

/// The debug text of a value: the variant's name and its fields in brackets; sequences
/// as `[a, b]`, sets as `{a, b}`, maps as `{k: v, k2: v2}`.
pub open spec fn debug_text(e: EdnValue) -> Seq<char>
    decreases e,
{
    match e {
        EdnValue::Nil => "Nil"@,
        EdnValue::Bool(b) => if b { "Bool(true)"@ } else { "Bool(false)"@ },
        EdnValue::Str(s) => "String("@ + str_debug(s) + ")"@,
        EdnValue::Char(c) => "Char("@ + char_debug(c) + ")"@,
        EdnValue::Symbol(s) => "Symbol("@ + str_debug(s) + ")"@,
        EdnValue::Keyword(s) => "Keyword("@ + str_debug(s) + ")"@,
        EdnValue::Int(n) => "Int("@ + int_text(n) + ")"@,
        EdnValue::BigInt(n) => "BigInt("@ + int_text(n) + ")"@,
        EdnValue::Float(f) => "Float("@ + float_debug(f) + ")"@,
        EdnValue::Decimal(u, s) => "BigDecimal("@ + decimal_debug(int_text(u), s) + ")"@,
        EdnValue::Ratio(p, q) => "BigRational(Ratio { numer: "@ + int_text(p) + ", denom: "@ + int_text(q) + " })"@,
        EdnValue::List(xs) => "List(["@ + debug_items(xs) + "])"@,
        EdnValue::Vector(xs) => "Vec(["@ + debug_items(xs) + "])"@,
        EdnValue::SetOf(xs) => "Set({"@ + debug_items(xs) + "})"@,
        EdnValue::MapOf(es) => "Map({"@ + debug_entries(es) + "})"@,
        EdnValue::Tagged(t, x) => "TaggedElement("@ + str_debug(t) + ", "@ + debug_text(*x) + ")"@,
    }
}

/// The debug texts of values, separated by `, `.
pub open spec fn debug_items(xs: Seq<EdnValue>) -> Seq<char>
    decreases xs,
{
    if xs.len() == 0 {
        Seq::empty()
    } else if xs.len() == 1 {
        debug_text(xs[0])
    } else {
        debug_items(xs.drop_last()) + ", "@ + debug_text(xs.last())
    }
}

/// The debug texts of map entries, `k: v`, separated by `, `.
pub open spec fn debug_entries(es: Seq<(EdnValue, EdnValue)>) -> Seq<char>
    decreases es,
{
    if es.len() == 0 {
        Seq::empty()
    } else if es.len() == 1 {
        debug_text(es[0].0) + ": "@ + debug_text(es[0].1)
    } else {
        debug_entries(es.drop_last()) + ", "@ + debug_text(es.last().0) + ": "@ + debug_text(es.last().1)
    }
}

/// Appends the debug text of `e` to `out`.
pub fn push_debug(out: &mut String, e: &Edn)
    ensures
        final(out)@ == old(out)@ + debug_text(e.model()),
    decreases e,
{
    let ghost start = out@;
    match e {
        Edn::Nil => {
            out.append("Nil");
        },
        Edn::Bool(b) => {
            if *b {
                out.append("Bool(true)");
            } else {
                out.append("Bool(false)");
            }
        },
        Edn::String(s) => {
            out.append("String(");
            out.append(debug_str(s.as_str()).as_str());
            out.append(")");
        },
        Edn::Char(c) => {
            out.append("Char(");
            out.append(debug_char(*c).as_str());
            out.append(")");
        },
        Edn::Symbol(s) => {
            out.append("Symbol(");
            out.append(debug_str(s.as_str()).as_str());
            out.append(")");
        },
        Edn::Keyword(s) => {
            out.append("Keyword(");
            out.append(debug_str(s.as_str()).as_str());
            out.append(")");
        },
        Edn::Int(n) => {
            out.append("Int(");
            push_i64_text(out, *n);
            out.append(")");
        },
        Edn::BigInt(n) => {
            out.append("BigInt(");
            n.push_text(out);
            out.append(")");
        },
        Edn::Float(f) => {
            out.append("Float(");
            match f {
                FloatValue::NegInfinity => out.append("-inf"),
                FloatValue::Finite(x) => x.value().unscaled().push_float_text(x.value().scale(), out),
                FloatValue::Infinity => out.append("inf"),
                FloatValue::NaN => out.append("NaN"),
            }
            out.append(")");
        },
        Edn::BigDecimal(d) => {
            let mut u = String::new();
            d.unscaled().push_text(&mut u);
            proof {
                assert(u@ =~= int_text(d.unscaled_value()));
                crate::numeric::lemma_decimal_integer(d.unscaled_value());
            }
            let t = decimal_debug_text(u.as_str(), d.scale());
            out.append("BigDecimal(");
            out.append(t.as_str());
            out.append(")");
        },
        Edn::BigRational(q) => {
            out.append("BigRational(Ratio { numer: ");
            q.numer().push_text(out);
            out.append(", denom: ");
            q.denom().push_text(out);
            out.append(" })");
        },
        Edn::List(xs) => {
            out.append("List([");
            push_debug_items(out, xs);
            out.append("])");
        },
        Edn::Vec(xs) => {
            out.append("Vec([");
            push_debug_items(out, xs);
            out.append("])");
        },
        Edn::SetOf(xs) => {
            out.append("Set({");
            proof { lemma_set_elements(xs); }
            push_debug_items(out, &xs.items);
            out.append("})");
        },
        Edn::MapOf(es) => {
            out.append("Map({");
            proof { lemma_map_entries(es); }
            push_debug_entries(out, &es.entries);
            out.append("})");
        },
        Edn::TaggedElement(t, x) => {
            out.append("TaggedElement(");
            out.append(debug_str(t.as_str()).as_str());
            out.append(", ");
            push_debug(out, x);
            out.append(")");
        },
    }
    assert(out@ =~= start + debug_text(e.model()));
}

fn push_debug_items(out: &mut String, xs: &Vec<Edn>)
    ensures
        final(out)@ == old(out)@ + debug_items(models(xs@)),
    decreases xs,
{
    proof { lemma_models(xs@); }
    let ghost start = out@;
    let ghost ms = models(xs@);
    let mut i: usize = 0;
    while i < xs.len()
        invariant
            0 <= i <= xs@.len(),
            ms == models(xs@),
            ms.len() == xs@.len(),
            forall|j: int| 0 <= j < xs@.len() ==> #[trigger] ms[j] == xs@[j].model(),
            out@ == start + debug_items(ms.take(i as int)),
        decreases xs@.len() - i,
    {
        if i > 0 {
            out.append(", ");
        }
        push_debug(out, &xs[i]);
        proof {
            let t = ms.take(i + 1);
            assert(t.drop_last() =~= ms.take(i as int));
            assert(t.last() == xs@[i as int].model());
            if i == 0 {
                assert(ms.take(0) =~= Seq::<EdnValue>::empty());
                assert(out@ =~= start + debug_items(t));
            } else {
                assert(out@ =~= start + debug_items(t));
            }
        }
        i = i + 1;
    }
    assert(ms.take(i as int) =~= ms);
}

fn push_debug_entries(out: &mut String, es: &Vec<(Edn, Edn)>)
    ensures
        final(out)@ == old(out)@ + debug_entries(entry_models(es@)),
    decreases es,
{
    proof { lemma_entry_models(es@); }
    let ghost start = out@;
    let ghost ms = entry_models(es@);
    let mut i: usize = 0;
    while i < es.len()
        invariant
            0 <= i <= es@.len(),
            ms == entry_models(es@),
            ms.len() == es@.len(),
            forall|j: int| 0 <= j < es@.len() ==> #[trigger] ms[j] == (es@[j].0.model(), es@[j].1.model()),
            out@ == start + debug_entries(ms.take(i as int)),
        decreases es@.len() - i,
    {
        if i > 0 {
            out.append(", ");
        }
        push_debug(out, &es[i].0);
        out.append(": ");
        push_debug(out, &es[i].1);
        proof {
            let t = ms.take(i + 1);
            assert(t.drop_last() =~= ms.take(i as int));
            assert(t.last() == ms[i as int]);
            if i == 0 {
                assert(ms.take(0) =~= Seq::<(EdnValue, EdnValue)>::empty());
                assert(t[0] == ms[0]);
                assert(out@ =~= start + debug_entries(t));
            } else {
                assert(out@ =~= start + debug_entries(t));
            }
        }
        i = i + 1;
    }
    assert(ms.take(i as int) =~= ms);
}

} // verus!
