//! The reader: from text to EDN values, following the reader macros.
use vstd::prelude::*;
use crate::chars::{alphabetic, is_unicode_alphabetic};
use crate::debug::{debug_text, push_debug};
use crate::laws::{law_set_of, law_map_of};
use crate::edn::{
    Edn, EdnSet, EdnMap, EdnValue, FloatValue, FloatModel, models, entry_models, lemma_models, lemma_entry_models,
    lemma_models_drop_first, lemma_entry_models_drop_first,
};
use crate::number::{number_at, read_number};
use crate::order::{set_of, map_of, pairs_of, set_add, map_add};
use crate::scalar::{
    string_at, character_at, comment_end, read_string, read_character, read_comment, code_at, code_from,
    token_code, token_code_of,
};
use crate::symbol::{symbol_parts, token_value, interpret_token, symbol_split};
use crate::syntax::{
    Parsed, ReadFailure, agrees, skip_ws, skip_ws_at, lemma_skip_ws, decimal_char, macro_char,
    is_macro, token_at, token_from,
};
use crate::text::{chars_of, chars_equal, message, message_char, string_of};
use vstd::string::StringExecFns;

verus! {

/// The model of a value that may be absent.
pub open spec fn opt_model(e: Option<Edn>) -> Option<EdnValue> {
    match e {
        Some(v) => Some(v.model()),
        None => None,
    }
}

/// The key of a namespaced map's entry, `n` being the map's namespace: a keyword or
/// symbol without a namespace gets `n`, one in the namespace `_` loses it, others stay.
/// A key whose name the symbol pattern does not split stays as it is.
pub open spec fn renamed_key(k: EdnValue, n: Seq<char>) -> EdnValue {
    match k {
        EdnValue::Keyword(kw) => match symbol_parts(kw) {
            None => k,
            Some((Some(ns), name)) => if ns == "_/"@ { EdnValue::Keyword(name) } else { EdnValue::Keyword(kw) },
            Some((None, name)) => EdnValue::Keyword(n + "/"@ + name),
        },
        EdnValue::Symbol(sym) => match symbol_parts(sym) {
            None => k,
            Some((Some(ns), name)) => if ns == "_/"@ { EdnValue::Symbol(name) } else { EdnValue::Symbol(sym) },
            Some((None, name)) => EdnValue::Symbol(n + "/"@ + name),
        },
        _ => k,
    }
}

/// The entries of a namespaced map, their keys renamed.
pub open spec fn renamed_entries(es: Seq<(EdnValue, EdnValue)>, n: Seq<char>) -> Seq<(EdnValue, EdnValue)> {
    Seq::new(es.len(), |j: int| (renamed_key(es[j].0, n), es[j].1))
}

/// Reads one form from `p`: whitespace and comments and discarded forms are skipped;
/// a digit, or a sign before a digit, starts a number; a macro character starts its
/// macro; anything else starts a token. The end of input is the error
/// `EOF while reading`. (`Panics` stands only in branches that positions in the text
/// rule out.)
pub open spec fn read_at(s: Seq<char>, p: int) -> Parsed<EdnValue>
    decreases s.len() - p, 0nat,
{
    if p < 0 || p > s.len() {
        Parsed::Panics
    } else {
        let q = skip_ws(s, p);
        proof { lemma_skip_ws(s, p); }
        if q >= s.len() {
            Parsed::Fail("EOF while reading"@, q)
        } else {
            let ch = s[q];
            if decimal_char(ch) {
                number_at(s, q + 1, ch)
            } else if macro_char(ch) {
                match macro_at(s, q + 1, ch) {
                    Parsed::Done(Some(v), r) => Parsed::Done(v, r),
                    Parsed::Done(None, r) => if p < r <= s.len() {
                        read_at(s, r)
                    } else {
                        Parsed::Panics
                    },
                    Parsed::Fail(m, r) => Parsed::Fail(m, r),
                    Parsed::Panics => Parsed::Panics,
                }
            } else if (ch == '+' || ch == '-') && q + 1 < s.len() && decimal_char(s[q + 1]) {
                number_at(s, q + 1, ch)
            } else {
                match token_at(s, q + 1, ch, true) {
                    Parsed::Done(t, r) => token_value(t, r),
                    Parsed::Fail(m, r) => Parsed::Fail(m, r),
                    Parsed::Panics => Parsed::Panics,
                }
            }
        }
    }
}

/// Reads forms from `p` up to the closing `delim`, the forms so far being `acc`.
pub open spec fn list_at(s: Seq<char>, p: int, delim: char, acc: Seq<EdnValue>) -> Parsed<Seq<EdnValue>>
    decreases s.len() - p, 1nat,
{
    if p < 0 || p > s.len() {
        Parsed::Panics
    } else {
        let q = skip_ws(s, p);
        proof { lemma_skip_ws(s, p); }
        if q >= s.len() {
            Parsed::Fail("EOF while reading"@, q)
        } else if s[q] == delim {
            Parsed::Done(acc, q + 1)
        } else if macro_char(s[q]) {
            match macro_at(s, q + 1, s[q]) {
                Parsed::Done(Some(v), r) => if p < r <= s.len() {
                    list_at(s, r, delim, acc.push(v))
                } else {
                    Parsed::Panics
                },
                Parsed::Done(None, r) => if p < r <= s.len() {
                    list_at(s, r, delim, acc)
                } else {
                    Parsed::Panics
                },
                Parsed::Fail(m, r) => Parsed::Fail(m, r),
                Parsed::Panics => Parsed::Panics,
            }
        } else {
            match read_at(s, q) {
                Parsed::Done(v, r) => if p < r <= s.len() {
                    list_at(s, r, delim, acc.push(v))
                } else {
                    Parsed::Panics
                },
                Parsed::Fail(m, r) => Parsed::Fail(m, r),
                Parsed::Panics => Parsed::Panics,
            }
        }
    }
}

/// The reader macro of the character `c`, its character consumed, from `p`.
pub open spec fn macro_at(s: Seq<char>, p: int, c: char) -> Parsed<Option<EdnValue>>
    decreases s.len() - p, 4nat,
{
    if c == '"' {
        string_at(s, p)
    } else if c == ';' {
        Parsed::Done(None, comment_end(s, p))
    } else if c == '^' {
        meta_at(s, p)
    } else if c == '(' {
        match list_at(s, p, ')', Seq::empty()) {
            Parsed::Done(xs, r) => Parsed::Done(Some(EdnValue::List(xs)), r),
            Parsed::Fail(m, r) => Parsed::Fail(m, r),
            Parsed::Panics => Parsed::Panics,
        }
    } else if c == '[' {
        match list_at(s, p, ']', Seq::empty()) {
            Parsed::Done(xs, r) => Parsed::Done(Some(EdnValue::Vector(xs)), r),
            Parsed::Fail(m, r) => Parsed::Fail(m, r),
            Parsed::Panics => Parsed::Panics,
        }
    } else if c == '{' {
        match list_at(s, p, '}', Seq::empty()) {
            Parsed::Done(xs, r) => if xs.len() % 2 == 1 {
                Parsed::Fail("Map literal must contain an even number of forms"@, r)
            } else {
                Parsed::Done(Some(EdnValue::MapOf(map_of(pairs_of(xs)))), r)
            },
            Parsed::Fail(m, r) => Parsed::Fail(m, r),
            Parsed::Panics => Parsed::Panics,
        }
    } else if c == ')' || c == ']' || c == '}' {
        Parsed::Fail("Unmatched Delimiter: "@.push(c), p)
    } else if c == '\\' {
        character_at(s, p)
    } else if c == '#' {
        dispatch_at(s, p)
    } else {
        Parsed::Panics
    }
}

/// The dispatch macro after `#`, from `p`: `##` symbolic values, `#^` metadata,
/// `#{` sets, `#<` unreadable forms, `#_` discarded forms, `#:` namespaced maps,
/// and tagged elements after a letter.
pub open spec fn dispatch_at(s: Seq<char>, p: int) -> Parsed<Option<EdnValue>>
    decreases s.len() - p, 3nat,
{
    if p < 0 {
        Parsed::Panics
    } else if p >= s.len() {
        Parsed::Fail("EOF while reading character"@, p)
    } else {
        let c = s[p];
        if c == '#' {
            symbolic_at(s, p + 1)
        } else if c == '^' {
            meta_at(s, p + 1)
        } else if c == '{' {
            match list_at(s, p + 1, '}', Seq::empty()) {
                Parsed::Done(xs, r) => Parsed::Done(Some(EdnValue::SetOf(set_of(xs))), r),
                Parsed::Fail(m, r) => Parsed::Fail(m, r),
                Parsed::Panics => Parsed::Panics,
            }
        } else if c == '<' {
            Parsed::Fail("Unreadable form"@, p + 1)
        } else if c == '_' {
            discard_at(s, p + 1)
        } else if c == ':' {
            namespace_map_at(s, p + 1)
        } else if alphabetic(c) {
            tagged_at(s, p)
        } else {
            Parsed::Fail("No dispatch macro for: "@.push(c), p)
        }
    }
}

/// A tagged element from `p`: a symbol, `uuid` or `inst`, then the form it tags.
pub open spec fn tagged_at(s: Seq<char>, p: int) -> Parsed<Option<EdnValue>>
    decreases s.len() - p, 2nat,
{
    match read_at(s, p) {
        Parsed::Done(EdnValue::Symbol(name), r) => if p <= r <= s.len() {
            match read_at(s, r) {
                Parsed::Done(o, r2) => if name != "uuid"@ && name != "inst"@ {
                    Parsed::Fail("No reader function for tag "@ + name, r2)
                } else {
                    Parsed::Done(Some(EdnValue::Tagged(name, Box::new(o))), r2)
                },
                Parsed::Fail(m, r2) => Parsed::Fail(m, r2),
                Parsed::Panics => Parsed::Panics,
            }
        } else {
            Parsed::Panics
        },
        Parsed::Done(_, r) => Parsed::Fail("Reader tag must be a symbol"@, r),
        Parsed::Fail(m, r) => Parsed::Fail(m, r),
        Parsed::Panics => Parsed::Panics,
    }
}

/// A symbolic value after `##`, from `p`: `Inf`, `-Inf` or `NaN`.
pub open spec fn symbolic_at(s: Seq<char>, p: int) -> Parsed<Option<EdnValue>>
    decreases s.len() - p, 2nat,
{
    match read_at(s, p) {
        Parsed::Done(EdnValue::Symbol(x), r) => if x == "Inf"@ {
            Parsed::Done(Some(EdnValue::Float(FloatModel::Infinity)), r)
        } else if x == "-Inf"@ {
            Parsed::Done(Some(EdnValue::Float(FloatModel::NegInfinity)), r)
        } else if x == "NaN"@ {
            Parsed::Done(Some(EdnValue::Float(FloatModel::NaN)), r)
        } else {
            Parsed::Fail("Unkown symbolic value: ##"@ + x, r)
        },
        Parsed::Done(e, r) => Parsed::Fail("Invalid token: ##"@ + debug_text(e), r),
        Parsed::Fail(m, r) => Parsed::Fail(m, r),
        Parsed::Panics => Parsed::Panics,
    }
}

/// Metadata after `^` or `#^`, from `p`: a symbol, string, keyword or map, which is
/// dropped, then the form it annotates.
pub open spec fn meta_at(s: Seq<char>, p: int) -> Parsed<Option<EdnValue>>
    decreases s.len() - p, 2nat,
{
    match read_at(s, p) {
        Parsed::Done(m, r) => if m is Symbol || m is Str || m is Keyword || m is MapOf {
            if p <= r <= s.len() {
                match read_at(s, r) {
                    Parsed::Done(v, r2) => Parsed::Done(Some(v), r2),
                    Parsed::Fail(msg, r2) => Parsed::Fail(msg, r2),
                    Parsed::Panics => Parsed::Panics,
                }
            } else {
                Parsed::Panics
            }
        } else {
            Parsed::Fail("Metadata must be Symbol,Keyword,String or Map"@, r)
        },
        Parsed::Fail(msg, r) => Parsed::Fail(msg, r),
        Parsed::Panics => Parsed::Panics,
    }
}

/// A discarded form after `#_`, from `p`: it is read and yields nothing.
pub open spec fn discard_at(s: Seq<char>, p: int) -> Parsed<Option<EdnValue>>
    decreases s.len() - p, 2nat,
{
    match read_at(s, p) {
        Parsed::Done(_, r) => Parsed::Done(None, r),
        Parsed::Fail(m, r) => Parsed::Fail(m, r),
        Parsed::Panics => Parsed::Panics,
    }
}

/// A namespaced map after `#:`, from `p`. The form read first names the namespace when
/// it is a symbol without one; an error in reading it is dropped, and the reader goes
/// on from where it stopped. Then comes a map whose keys get the namespace. (`Panics`
/// only passes on what reading the first form gives, which it never is.)
pub open spec fn namespace_map_at(s: Seq<char>, p: int) -> Parsed<Option<EdnValue>>
    decreases s.len() - p, 3nat,
{
    let first = read_at(s, p);
    match first {
        Parsed::Panics => Parsed::Panics,
        Parsed::Done(EdnValue::Symbol(sym), r) => match symbol_parts(sym) {
            None => namespace_map_rest(s, p, r, Some(sym)),
            Some((Some(_), _)) => Parsed::Fail("Namespaced map must specify a valid namespace: "@ + sym, r),
            Some((None, name)) => namespace_map_rest(s, p, r, Some(name)),
        },
        Parsed::Done(_, r) => namespace_map_rest(s, p, r, None),
        Parsed::Fail(_, r) => namespace_map_rest(s, p, r, None),
    }
}

/// The map of a namespaced map, from `after`, the map's namespace being `ns`
/// (the map started at `p`).
pub open spec fn namespace_map_rest(s: Seq<char>, p: int, after: int, ns: Option<Seq<char>>) -> Parsed<Option<EdnValue>>
    decreases s.len() - p, 2nat,
{
    if 0 <= p <= s.len() && after <= s.len() {
        let from = if after < p { p } else { after };
        let q = skip_ws(s, from);
        proof { lemma_skip_ws(s, from); }
        if q >= s.len() {
            Parsed::Fail("EOF while reading"@, q)
        } else if s[q] != '{' {
            Parsed::Fail("Namespaced map must specify a map"@, q + 1)
        } else {
            match list_at(s, q + 1, '}', Seq::empty()) {
                Parsed::Done(xs, r) => if xs.len() % 2 == 1 {
                    Parsed::Fail("Map literal must contain an even number of forms"@, r)
                } else {
                    match ns {
                        None => Parsed::Done(Some(EdnValue::MapOf(map_of(pairs_of(xs)))), r),
                        Some(n) => Parsed::Done(Some(EdnValue::MapOf(map_of(renamed_entries(pairs_of(xs), n)))), r),
                    }
                },
                Parsed::Fail(m, r) => Parsed::Fail(m, r),
                Parsed::Panics => Parsed::Panics,
            }
        }
    } else {
        Parsed::Panics
    }
}

} // verus!

verus! {

/// Reads one form from `pos` (see `read_at`).
pub fn read_form(s: &Vec<char>, pos: usize) -> (r: Result<(Edn, usize), ReadFailure>)
    requires
        pos <= s@.len(),
    ensures
        agrees(r, read_at(s@, pos as int), |e: Edn| e.model()),
        r matches Ok((_, q)) ==> pos < q <= s@.len(),
        r matches Err(ReadFailure::Error(_, q)) ==> q <= s@.len(),
    decreases s@.len() - pos, 0nat,
{
    let mut p = pos;
    loop
        invariant
            pos <= p <= s@.len(),
            read_at(s@, p as int) == read_at(s@, pos as int),
        decreases s@.len() - p,
    {
        let q = skip_ws_at(s, p);
        if q >= s.len() {
            return Err(ReadFailure::Error(String::from_str("EOF while reading"), q));
        }
        let ch = s[q];
        if '0' <= ch && ch <= '9' {
            return read_number(s, q + 1, ch);
        }
        if is_macro(ch) {
            match read_macro(s, q + 1, ch) {
                Ok((Some(v), r)) => {
                    return Ok((v, r));
                },
                Ok((None, r)) => {
                    p = r;
                },
                Err(e) => {
                    return Err(e);
                },
            }
        } else {
            if (ch == '+' || ch == '-') && q + 1 < s.len() && '0' <= s[q + 1] && s[q + 1] <= '9' {
                return read_number(s, q + 1, ch);
            }
            match token_from(s, q + 1, ch, true) {
                Ok((t, r)) => {
                    return interpret_token(&t, r);
                },
                Err(e) => {
                    return Err(e);
                },
            }
        }
    }
}

/// Reads forms from `pos` up to the closing `delim` (see `list_at`).
pub fn read_delimited_list(s: &Vec<char>, pos: usize, delim: char) -> (r: Result<(Vec<Edn>, usize), ReadFailure>)
    requires
        pos <= s@.len(),
    ensures
        agrees(r, list_at(s@, pos as int, delim, Seq::empty()), |v: Vec<Edn>| models(v@)),
        r matches Ok((_, q)) ==> pos < q <= s@.len(),
        r matches Err(ReadFailure::Error(_, q)) ==> q <= s@.len(),
    decreases s@.len() - pos, 1nat,
{
    let mut acc: Vec<Edn> = Vec::new();
    let mut p = pos;
    assert(models(acc@) =~= Seq::<EdnValue>::empty());
    loop
        invariant
            pos <= p <= s@.len(),
            list_at(s@, p as int, delim, models(acc@)) == list_at(s@, pos as int, delim, Seq::empty()),
        decreases s@.len() - p,
    {
        let q = skip_ws_at(s, p);
        if q >= s.len() {
            return Err(ReadFailure::Error(String::from_str("EOF while reading"), q));
        }
        let ch = s[q];
        if ch == delim {
            return Ok((acc, q + 1));
        }
        if is_macro(ch) {
            match read_macro(s, q + 1, ch) {
                Ok((Some(v), r)) => {
                    let ghost before = acc@;
                    let ghost vm = v.model();
                    acc.push(v);
                    assert(acc@.drop_last() =~= before);
                    assert(models(acc@) == models(before).push(vm));
                    p = r;
                },
                Ok((None, r)) => {
                    p = r;
                },
                Err(e) => {
                    return Err(e);
                },
            }
        } else {
            match read_form(s, q) {
                Ok((v, r)) => {
                    let ghost before = acc@;
                    let ghost vm = v.model();
                    acc.push(v);
                    assert(acc@.drop_last() =~= before);
                    assert(models(acc@) == models(before).push(vm));
                    p = r;
                },
                Err(e) => {
                    return Err(e);
                },
            }
        }
    }
}

/// Reads the reader macro of `ch`, whose character was consumed, from `pos`
/// (see `macro_at`).
pub fn read_macro(s: &Vec<char>, pos: usize, ch: char) -> (r: Result<(Option<Edn>, usize), ReadFailure>)
    requires
        pos <= s@.len(),
        macro_char(ch),
    ensures
        agrees(r, macro_at(s@, pos as int, ch), |e: Option<Edn>| opt_model(e)),
        r matches Ok((_, q)) ==> pos <= q <= s@.len(),
        r matches Err(ReadFailure::Error(_, q)) ==> q <= s@.len(),
    decreases s@.len() - pos, 4nat,
{
    if ch == '"' {
        read_string(s, pos)
    } else if ch == ';' {
        Ok((None, read_comment(s, pos)))
    } else if ch == '^' {
        read_meta(s, pos)
    } else if ch == '(' {
        match read_delimited_list(s, pos, ')') {
            Ok((v, r)) => Ok((Some(Edn::List(v)), r)),
            Err(e) => Err(e),
        }
    } else if ch == '[' {
        match read_delimited_list(s, pos, ']') {
            Ok((v, r)) => Ok((Some(Edn::Vec(v)), r)),
            Err(e) => Err(e),
        }
    } else if ch == '{' {
        match read_delimited_list(s, pos, '}') {
            Ok((v, r)) => {
                proof { lemma_models(v@); }
                if v.len() % 2 == 1 {
                    Err(ReadFailure::Error(
                        String::from_str("Map literal must contain an even number of forms"),
                        r,
                    ))
                } else {
                    let es = pair_up(v);
                    Ok((Some(Edn::MapOf(map_from_entries(es))), r))
                }
            },
            Err(e) => Err(e),
        }
    } else if ch == ')' || ch == ']' || ch == '}' {
        Err(ReadFailure::Error(message_char("Unmatched Delimiter: ", ch), pos))
    } else if ch == '\\' {
        read_character(s, pos)
    } else if ch == '#' {
        read_dispatch(s, pos)
    } else {
        assert(false);
        Err(ReadFailure::Error(String::new(), pos))
    }
}

/// Reads the dispatch macro after `#`, from `pos` (see `dispatch_at`).
pub fn read_dispatch(s: &Vec<char>, pos: usize) -> (r: Result<(Option<Edn>, usize), ReadFailure>)
    requires
        pos <= s@.len(),
    ensures
        agrees(r, dispatch_at(s@, pos as int), |e: Option<Edn>| opt_model(e)),
        r matches Ok((_, q)) ==> pos <= q <= s@.len(),
        r matches Err(ReadFailure::Error(_, q)) ==> q <= s@.len(),
    decreases s@.len() - pos, 3nat,
{
    if pos >= s.len() {
        return Err(ReadFailure::Error(String::from_str("EOF while reading character"), pos));
    }
    let c = s[pos];
    if c == '#' {
        read_symbolic_value(s, pos + 1)
    } else if c == '^' {
        read_meta(s, pos + 1)
    } else if c == '{' {
        match read_delimited_list(s, pos + 1, '}') {
            Ok((v, r)) => Ok((Some(Edn::SetOf(set_from(v))), r)),
            Err(e) => Err(e),
        }
    } else if c == '<' {
        Err(ReadFailure::Error(String::from_str("Unreadable form"), pos + 1))
    } else if c == '_' {
        read_discard(s, pos + 1)
    } else if c == ':' {
        read_namespace_map(s, pos + 1)
    } else if is_unicode_alphabetic(c) {
        read_tagged(s, pos)
    } else {
        Err(ReadFailure::Error(message_char("No dispatch macro for: ", c), pos))
    }
}

/// Reads a tagged element from `pos` (see `tagged_at`).
pub fn read_tagged(s: &Vec<char>, pos: usize) -> (r: Result<(Option<Edn>, usize), ReadFailure>)
    requires
        pos <= s@.len(),
    ensures
        agrees(r, tagged_at(s@, pos as int), |e: Option<Edn>| opt_model(e)),
        r matches Ok((_, q)) ==> pos <= q <= s@.len(),
        r matches Err(ReadFailure::Error(_, q)) ==> q <= s@.len(),
    decreases s@.len() - pos, 2nat,
{
    match read_form(s, pos) {
        Ok((Edn::Symbol(name), r)) => {
            match read_form(s, r) {
                Ok((o, r2)) => {
                    let cs = chars_of(name.as_str());
                    let n = cs.len();
                    assert(cs@.subrange(0, n as int) =~= cs@);
                    if !chars_equal(&cs, 0, n, "uuid") && !chars_equal(&cs, 0, n, "inst") {
                        return Err(ReadFailure::Error(message("No reader function for tag ", &cs, 0, n), r2));
                    }
                    Ok((Some(Edn::TaggedElement(name, Box::new(o))), r2))
                },
                Err(e) => Err(e),
            }
        },
        Ok((_, r)) => Err(ReadFailure::Error(String::from_str("Reader tag must be a symbol"), r)),
        Err(e) => Err(e),
    }
}

/// Reads a symbolic value after `##`, from `pos` (see `symbolic_at`).
pub fn read_symbolic_value(s: &Vec<char>, pos: usize) -> (r: Result<(Option<Edn>, usize), ReadFailure>)
    requires
        pos <= s@.len(),
    ensures
        agrees(r, symbolic_at(s@, pos as int), |e: Option<Edn>| opt_model(e)),
        r matches Ok((_, q)) ==> pos <= q <= s@.len(),
        r matches Err(ReadFailure::Error(_, q)) ==> q <= s@.len(),
    decreases s@.len() - pos, 2nat,
{
    match read_form(s, pos) {
        Ok((Edn::Symbol(x), r)) => {
            let cs = chars_of(x.as_str());
            let n = cs.len();
            assert(cs@.subrange(0, n as int) =~= cs@);
            if chars_equal(&cs, 0, n, "Inf") {
                Ok((Some(Edn::Float(FloatValue::Infinity)), r))
            } else if chars_equal(&cs, 0, n, "-Inf") {
                Ok((Some(Edn::Float(FloatValue::NegInfinity)), r))
            } else if chars_equal(&cs, 0, n, "NaN") {
                Ok((Some(Edn::Float(FloatValue::NaN)), r))
            } else {
                Err(ReadFailure::Error(message("Unkown symbolic value: ##", &cs, 0, n), r))
            }
        },
        Ok((e, r)) => {
            let mut m = String::from_str("Invalid token: ##");
            push_debug(&mut m, &e);
            Err(ReadFailure::Error(m, r))
        },
        Err(e) => Err(e),
    }
}

/// Reads metadata and the form it annotates, from `pos` (see `meta_at`).
pub fn read_meta(s: &Vec<char>, pos: usize) -> (r: Result<(Option<Edn>, usize), ReadFailure>)
    requires
        pos <= s@.len(),
    ensures
        agrees(r, meta_at(s@, pos as int), |e: Option<Edn>| opt_model(e)),
        r matches Ok((_, q)) ==> pos <= q <= s@.len(),
        r matches Err(ReadFailure::Error(_, q)) ==> q <= s@.len(),
    decreases s@.len() - pos, 2nat,
{
    match read_form(s, pos) {
        Ok((m, r)) => {
            let allowed = match m {
                Edn::Symbol(_) => true,
                Edn::String(_) => true,
                Edn::Keyword(_) => true,
                Edn::MapOf(_) => true,
                _ => false,
            };
            if !allowed {
                return Err(ReadFailure::Error(
                    String::from_str("Metadata must be Symbol,Keyword,String or Map"),
                    r,
                ));
            }
            match read_form(s, r) {
                Ok((v, r2)) => Ok((Some(v), r2)),
                Err(e) => Err(e),
            }
        },
        Err(e) => Err(e),
    }
}

/// Reads a form and drops it, from `pos` (see `discard_at`).
pub fn read_discard(s: &Vec<char>, pos: usize) -> (r: Result<(Option<Edn>, usize), ReadFailure>)
    requires
        pos <= s@.len(),
    ensures
        agrees(r, discard_at(s@, pos as int), |e: Option<Edn>| opt_model(e)),
        r matches Ok((_, q)) ==> pos <= q <= s@.len(),
        r matches Err(ReadFailure::Error(_, q)) ==> q <= s@.len(),
    decreases s@.len() - pos, 2nat,
{
    match read_form(s, pos) {
        Ok((_, r)) => Ok((None, r)),
        Err(e) => Err(e),
    }
}

/// Reads a namespaced map after `#:`, from `pos` (see `namespace_map_at`).
pub fn read_namespace_map(s: &Vec<char>, pos: usize) -> (r: Result<(Option<Edn>, usize), ReadFailure>)
    requires
        pos <= s@.len(),
    ensures
        agrees(r, namespace_map_at(s@, pos as int), |e: Option<Edn>| opt_model(e)),
        r matches Ok((_, q)) ==> pos <= q <= s@.len(),
        r matches Err(ReadFailure::Error(_, q)) ==> q <= s@.len(),
    decreases s@.len() - pos, 3nat,
{
    match read_form(s, pos) {
        Err(ReadFailure::Error(_, r)) => read_namespace_map_rest(s, pos, r, None),
        Ok((Edn::Symbol(sym), r)) => {
            let cs = chars_of(sym.as_str());
            match symbol_split(&cs) {
                None => read_namespace_map_rest(s, pos, r, Some(sym)),
                Some((Some(_), _)) => {
                    let n = cs.len();
                    assert(cs@.subrange(0, n as int) =~= cs@);
                    Err(ReadFailure::Error(
                        message("Namespaced map must specify a valid namespace: ", &cs, 0, n),
                        r,
                    ))
                },
                Some((None, name)) => read_namespace_map_rest(s, pos, r, Some(name)),
            }
        },
        Ok((_, r)) => read_namespace_map_rest(s, pos, r, None),
    }
}

/// Reads the map of a namespaced map from `after` (see `namespace_map_rest`).
fn read_namespace_map_rest(s: &Vec<char>, pos: usize, after: usize, ns: Option<String>) -> (r: Result<(Option<Edn>, usize), ReadFailure>)
    requires
        pos <= s@.len(),
        after <= s@.len(),
    ensures
        agrees(r, namespace_map_rest(s@, pos as int, after as int, match ns {
            Some(n) => Some(n@),
            None => None,
        }), |e: Option<Edn>| opt_model(e)),
        r matches Ok((_, q)) ==> pos <= q <= s@.len(),
        r matches Err(ReadFailure::Error(_, q)) ==> q <= s@.len(),
    decreases s@.len() - pos, 2nat,
{
    let from = if after < pos { pos } else { after };
    let q = skip_ws_at(s, from);
    if q >= s.len() {
        return Err(ReadFailure::Error(String::from_str("EOF while reading"), q));
    }
    if s[q] != '{' {
        return Err(ReadFailure::Error(String::from_str("Namespaced map must specify a map"), q + 1));
    }
    match read_delimited_list(s, q + 1, '}') {
        Ok((v, r)) => {
            proof { lemma_models(v@); }
            if v.len() % 2 == 1 {
                return Err(ReadFailure::Error(
                    String::from_str("Map literal must contain an even number of forms"),
                    r,
                ));
            }
            let es = pair_up(v);
            match ns {
                None => Ok((Some(Edn::MapOf(map_from_entries(es))), r)),
                Some(n) => Ok((Some(Edn::MapOf(map_from_entries(rename_keys(es, &n)))), r)),
            }
        },
        Err(e) => Err(e),
    }
}

/// The set of `items` (see `set_of`).
fn set_from(items: Vec<Edn>) -> (r: EdnSet)
    ensures
        r.elements() == set_of(models(items@)),
{
    proof { lemma_models(items@); }
    let ghost all = models(items@);
    let mut items = items;
    let mut set: Vec<Edn> = Vec::new();
    let ghost mut k: int = 0;
    assert(all.take(0) =~= Seq::<EdnValue>::empty());
    assert(models(set@) =~= Seq::<EdnValue>::empty());
    assert(all.skip(0) =~= all);
    while items.len() > 0
        invariant
            0 <= k <= all.len(),
            models(items@) == all.skip(k),
            models(set@) == set_of(all.take(k)),
        decreases items@.len(),
    {
        proof { lemma_models(items@); }
        let ghost before = items@;
        let x = items.remove(0);
        proof {
            assert(items@ =~= before.drop_first());
            lemma_models_drop_first(before);
            assert(before[0] == x);
            assert(all.skip(k)[0] == x.model());
            assert(all.skip(k).drop_first() =~= all.skip(k + 1));
            assert(all.take(k + 1).drop_last() =~= all.take(k));
            assert(all.take(k + 1).last() == x.model());
        }
        set_add(&mut set, x);
        proof { k = k + 1; }
    }
    proof {
        lemma_models(items@);
        assert(all.take(k) =~= all);
    }
    proof { law_set_of(all); }
    EdnSet::from_ascending(set)
}

/// The items of an even-length vector taken two by two (see `pairs_of`).
fn pair_up(items: Vec<Edn>) -> (r: Vec<(Edn, Edn)>)
    requires
        items@.len() % 2 == 0,
    ensures
        entry_models(r@) == pairs_of(models(items@)),
{
    proof { lemma_models(items@); }
    let ghost all = models(items@);
    let mut items = items;
    let mut out: Vec<(Edn, Edn)> = Vec::new();
    let ghost mut k: int = 0;
    assert(all.skip(0) =~= all);
    proof { lemma_entry_models(out@); }
    while items.len() > 1
        invariant
            0 <= 2 * k <= all.len(),
            all.len() % 2 == 0,
            models(items@) == all.skip(2 * k),
            out@.len() == k,
            forall|j: int| 0 <= j < k ==> #[trigger] entry_models(out@)[j] == (all[2 * j], all[2 * j + 1]),
            entry_models(out@).len() == k,
        decreases items@.len(),
    {
        proof { lemma_models(items@); }
        let ghost before = items@;
        let a = items.remove(0);
        let ghost mid = items@;
        let b = items.remove(0);
        proof {
            assert(mid =~= before.drop_first());
            assert(items@ =~= mid.drop_first());
            lemma_models_drop_first(before);
            lemma_models_drop_first(mid);
            assert(all.skip(2 * k)[0] == a.model());
            assert(all.skip(2 * k)[1] == b.model());
            assert(all.skip(2 * k).drop_first().drop_first() =~= all.skip(2 * k + 2));
        }
        let ghost prev = out@;
        let ghost am = a.model();
        let ghost bm = b.model();
        out.push((a, b));
        proof {
            lemma_entry_models(out@);
            lemma_entry_models(prev);
            assert(out@[k].0.model() == am);
            assert(out@[k].1.model() == bm);
            assert(all[2 * k] == am);
            assert(all[2 * k + 1] == bm);
            assert forall|j: int| 0 <= j < k + 1 implies #[trigger] entry_models(out@)[j] == (all[2 * j], all[2 * j + 1]) by {
                if j < k {
                    assert(out@[j] == prev[j]);
                    assert(entry_models(prev)[j] == (prev[j].0.model(), prev[j].1.model()));
                } else {
                    assert(entry_models(out@)[k] == (out@[k].0.model(), out@[k].1.model()));
                }
            }
            k = k + 1;
        }
    }
    proof {
        lemma_models(items@);
        if items@.len() == 1 {
            assert(all.len() == 2 * k + 1);
        }
        assert(entry_models(out@) =~= pairs_of(all));
    }
    out
}

/// The map of the entries `es`, in order (see `map_of`).
fn map_from_entries(es: Vec<(Edn, Edn)>) -> (r: EdnMap)
    ensures
        r.entries() == map_of(entry_models(es@)),
{
    proof { lemma_entry_models(es@); }
    let ghost all = entry_models(es@);
    let mut es = es;
    let mut map: Vec<(Edn, Edn)> = Vec::new();
    let ghost mut k: int = 0;
    assert(all.take(0) =~= Seq::<(EdnValue, EdnValue)>::empty());
    assert(entry_models(map@) =~= Seq::<(EdnValue, EdnValue)>::empty());
    assert(all.skip(0) =~= all);
    while es.len() > 0
        invariant
            0 <= k <= all.len(),
            entry_models(es@) == all.skip(k),
            entry_models(map@) == map_of(all.take(k)),
        decreases es@.len(),
    {
        proof { lemma_entry_models(es@); }
        let ghost before = es@;
        let (key, value) = es.remove(0);
        proof {
            assert(es@ =~= before.drop_first());
            lemma_entry_models_drop_first(before);
            assert(all.skip(k)[0] == (key.model(), value.model()));
            assert(all.skip(k).drop_first() =~= all.skip(k + 1));
            assert(all.take(k + 1).drop_last() =~= all.take(k));
            assert(all.take(k + 1).last() == (key.model(), value.model()));
        }
        map_add(&mut map, key, value);
        proof { k = k + 1; }
    }
    proof {
        lemma_entry_models(es@);
        assert(all.take(k) =~= all);
    }
    proof { law_map_of(all); }
    EdnMap::from_ascending(map)
}

/// The key `k` of a map in the namespace `n` (see `renamed_key`).
fn rename_key(k: Edn, n: &String) -> (r: Edn)
    ensures
        renamed_key(k.model(), n@) == r.model(),
{
    match k {
        Edn::Keyword(kw) => {
            let cs = chars_of(kw.as_str());
            match symbol_split(&cs) {
                None => Edn::Keyword(kw),
                Some((Some(ns), name)) => {
                    let nc = chars_of(ns.as_str());
                    let len = nc.len();
                    assert(nc@.subrange(0, len as int) =~= nc@);
                    if chars_equal(&nc, 0, len, "_/") {
                        Edn::Keyword(name)
                    } else {
                        Edn::Keyword(kw)
                    }
                },
                Some((None, name)) => {
                    let mut t = n.clone();
                    t.append("/");
                    t.append(name.as_str());
                    Edn::Keyword(t)
                },
            }
        },
        Edn::Symbol(sym) => {
            let cs = chars_of(sym.as_str());
            match symbol_split(&cs) {
                None => Edn::Symbol(sym),
                Some((Some(ns), name)) => {
                    let nc = chars_of(ns.as_str());
                    let len = nc.len();
                    assert(nc@.subrange(0, len as int) =~= nc@);
                    if chars_equal(&nc, 0, len, "_/") {
                        Edn::Symbol(name)
                    } else {
                        Edn::Symbol(sym)
                    }
                },
                Some((None, name)) => {
                    let mut t = n.clone();
                    t.append("/");
                    t.append(name.as_str());
                    Edn::Symbol(t)
                },
            }
        },
        other => other,
    }
}

/// The entries `es` with their keys in the namespace `n` (see `renamed_entries`).
fn rename_keys(es_in: Vec<(Edn, Edn)>, n: &String) -> (r: Vec<(Edn, Edn)>)
    ensures
        renamed_entries(entry_models(es_in@), n@) == entry_models(r@),
{
    proof { lemma_entry_models(es_in@); }
    let ghost all = entry_models(es_in@);
    let mut es = es_in;
    let mut out: Vec<(Edn, Edn)> = Vec::new();
    let ghost mut k: int = 0;
    assert(all.skip(0) =~= all);
    proof { lemma_entry_models(out@); }
    while es.len() > 0
        invariant
            all == entry_models(es_in@),
            0 <= k <= all.len(),
            entry_models(es@) == all.skip(k),
            out@.len() == k,
            entry_models(out@).len() == k,
            forall|j: int| 0 <= j < k ==> #[trigger] entry_models(out@)[j] == (renamed_key(all[j].0, n@), all[j].1),
        decreases es@.len(),
    {
        proof { lemma_entry_models(es@); }
        let ghost before = es@;
        let (key, value) = es.remove(0);
        proof {
            assert(es@ =~= before.drop_first());
            lemma_entry_models_drop_first(before);
            assert(all.skip(k)[0] == (key.model(), value.model()));
            assert(all[k] == (key.model(), value.model()));
            assert(all.skip(k).drop_first() =~= all.skip(k + 1));
        }
        let nk = rename_key(key, n);
        let ghost prev = out@;
        let ghost nkm = nk.model();
        let ghost vm = value.model();
        out.push((nk, value));
        proof {
            lemma_entry_models(out@);
            lemma_entry_models(prev);
            assert(out@[k].0.model() == nkm);
            assert(out@[k].1.model() == vm);
            assert(all[k].1 == vm);
            assert forall|j: int| 0 <= j < k + 1 implies #[trigger] entry_models(out@)[j] == (renamed_key(all[j].0, n@), all[j].1) by {
                if j < k {
                    assert(out@[j] == prev[j]);
                    assert(entry_models(prev)[j] == (prev[j].0.model(), prev[j].1.model()));
                } else {
                    assert(entry_models(out@)[k] == (out@[k].0.model(), out@[k].1.model()));
                }
            }
            k = k + 1;
        }
    }
    proof {
        lemma_entry_models(es@);
        assert(k == all.len());
        assert(entry_models(out@) =~= renamed_entries(all, n@));
    }
    out
}

} // verus!

verus! {

/// Text being read, and the position reached in it.
pub struct Reader {
    chars: Vec<char>,
    pos: usize,
}

impl Reader {
    #[verifier::type_invariant]
    spec fn wf(&self) -> bool {
        self.pos <= self.chars@.len()
    }

    /// The characters of the text.
    pub closed spec fn text(&self) -> Seq<char> {
        self.chars@
    }

    /// The position reached.
    pub closed spec fn position(&self) -> int {
        self.pos as int
    }

    /// A reader at the start of `s`.
    pub fn new(s: &str) -> (r: Reader)
        ensures
            r.text() == s@,
            r.position() == 0,
    {
        Reader { chars: chars_of(s), pos: 0 }
    }

    /// The position reached.
    pub fn offset(&self) -> (r: usize)
        ensures
            r == self.position(),
    {
        self.pos
    }

    /// Whether the reader is at the end of the text.
    pub fn at_end(&self) -> (r: bool)
        ensures
            r == (self.position() >= self.text().len()),
    {
        self.pos >= self.chars.len()
    }
}

/// `r` is what reading gave when the outcome was `p`.
pub open spec fn read_result(p: Parsed<EdnValue>, r: Result<Edn, String>) -> bool {
    match p {
        Parsed::Done(v, _) => r matches Ok(e) && e.model() == v,
        Parsed::Fail(m, _) => r matches Err(msg) && msg@ == m,
        Parsed::Panics => false,
    }
}

/// The position that reading reaches when the outcome is `p` and reading started at `start`.
pub open spec fn end_position<T>(p: Parsed<T>, start: int) -> int {
    match p {
        Parsed::Done(_, q) => q,
        Parsed::Fail(_, q) => q,
        Parsed::Panics => start,
    }
}

/// Reads one form from the reader's position and moves the reader past it (or to
/// where an error stopped it). The end of input is the error `EOF while reading`;
/// `eof_is_error`, `eof_value` and `is_recursive` change nothing.
pub fn read(reader: &mut Reader, eof_is_error: bool, eof_value: Edn, is_recursive: bool) -> (r: Result<Edn, String>)
    ensures
        final(reader).text() == old(reader).text(),
        read_result(read_at(old(reader).text(), old(reader).position()), r),
        final(reader).position() == end_position(read_at(old(reader).text(), old(reader).position()), old(reader).position()),
{
    proof { use_type_invariant(&*reader); }
    match read_form(&reader.chars, reader.pos) {
        Ok((e, q)) => {
            reader.pos = q;
            Ok(e)
        },
        Err(ReadFailure::Error(m, q)) => {
            reader.pos = q;
            Err(m)
        },
    }
}

/// Reads the first form of the text `s`.
pub fn read_str(s: String) -> (r: Result<Edn, String>)
    ensures
        read_result(read_at(s@, 0), r),
{
    let cs = chars_of(s.as_str());
    match read_form(&cs, 0) {
        Ok((e, _)) => Ok(e),
        Err(ReadFailure::Error(m, _)) => Err(m),
    }
}

/// Skips whitespace (and commas) at the reader's position.
pub fn skip_whitespace(reader: &mut Reader)
    ensures
        final(reader).text() == old(reader).text(),
        final(reader).position() == skip_ws(old(reader).text(), old(reader).position()),
{
    proof { use_type_invariant(&*reader); }
    let q = skip_ws_at(&reader.chars, reader.pos);
    reader.pos = q;
}

/// Reads the rest of a token that starts with `ch`, from the reader's position.
pub fn read_token(reader: &mut Reader, ch: char, lead_constituent: bool) -> (r: Result<String, String>)
    ensures
        final(reader).text() == old(reader).text(),
        match token_at(old(reader).text(), old(reader).position(), ch, lead_constituent) {
            Parsed::Done(t, q) => r matches Ok(x) && x@ == t && final(reader).position() == q,
            Parsed::Fail(m, q) => r matches Err(x) && x@ == m && final(reader).position() == q,
            Parsed::Panics => false,
        },
{
    proof { use_type_invariant(&*reader); }
    match token_from(&reader.chars, reader.pos, ch, lead_constituent) {
        Ok((t, q)) => {
            reader.pos = q;
            Ok(string_of(&t))
        },
        Err(ReadFailure::Error(m, q)) => {
            reader.pos = q;
            Err(m)
        },
    }
}

/// Reads a character code in `base`, its first digit `ch` already consumed, with at
/// most `length` digits in all (`ch` counted), the others from the reader's position.
/// The code is computed in `u32`, whose overflow panics; `lemma_code_never_panics`
/// shows that up to five digits never overflow.
pub fn read_unicode_char(reader: &mut Reader, ch: char, base: u32, length: i32, exact: bool) -> (r: Result<char, String>)
    requires
        2 <= base <= 36,
        !(code_at(old(reader).text(), old(reader).position(), ch, base, length, exact) is Panics),
    ensures
        final(reader).text() == old(reader).text(),
        match code_at(old(reader).text(), old(reader).position(), ch, base, length, exact) {
            Parsed::Done(c, q) => r == Ok::<char, String>(c) && final(reader).position() == q,
            Parsed::Fail(m, q) => r matches Err(x) && x@ == m && final(reader).position() == q,
            Parsed::Panics => false,
        },
{
    proof {
        use_type_invariant(&*reader);
    }
    match code_from(&reader.chars, reader.pos, ch, base, length, exact) {
        Some(Ok((c, q))) => {
            reader.pos = q;
            Ok(c)
        },
        Some(Err(ReadFailure::Error(m, q))) => {
            reader.pos = q;
            Err(m)
        },
        None => Err(String::new()),
    }
}

/// The character whose code is written in `token` after its first `offset` characters,
/// in `base`; the token must have `offset + length` characters (see `token_code`). The code
/// is computed in `u32`, whose overflow panics: such a token is left out here.
pub fn read_unicode_char_from_token(token: &str, offset: usize, length: usize, base: u32) -> (r: Result<Option<char>, String>)
    requires
        2 <= base <= 36,
        offset + length <= usize::MAX,
        !(token_code(token@, offset as int, length as int, base) is None),
    ensures
        match r {
            Ok(c) => token_code(token@, offset as int, length as int, base) == Some(Ok::<Option<char>, Seq<char>>(c)),
            Err(m) => token_code(token@, offset as int, length as int, base) == Some(Err::<Option<char>, Seq<char>>(m@)),
        },
{
    match token_code_of(&chars_of(token), offset, length, base) {
        Some(r) => r,
        None => Err(String::new()),
    }
}

/// The namespace (with its `/`) and the name of a symbol's text, as the symbol
/// pattern splits it (see `symbol_parts`).
pub fn sym_split(sym: &str) -> (r: Option<(Option<String>, String)>)
    ensures
        match r {
            None => symbol_parts(sym@) is None,
            Some((ns, name)) => symbol_parts(sym@) == Some(
                (
                    match ns {
                        Some(x) => Some(x@),
                        None => None::<Seq<char>>,
                    },
                    name@,
                ),
            ),
        },
{
    symbol_split(&chars_of(sym))
}

} // verus!
