//! Symbols and keywords: the pattern that the reader matches them by, and what it
//! makes of a token.
use vstd::prelude::*;
use crate::chars::{decimal_digit, is_unicode_decimal_digit};
use crate::edn::{Edn, EdnValue};
use crate::syntax::{Parsed, ReadFailure, agrees};
use crate::text::{chars_equal, message, string_of, substring};

verus! {

/// A character that may start a namespace or a name: not a decimal digit, not `/`.
pub open spec fn name_char(c: char) -> bool {
    !decimal_digit(c) && c != '/'
}

/// The first position at or after `i` holding `/` (or the end).
pub open spec fn slash_stop(s: Seq<char>, i: int) -> int
    decreases s.len() - i,
{
    if 0 <= i < s.len() && s[i] != '/' {
        slash_stop(s, i + 1)
    } else {
        i
    }
}

/// Where a name that starts at `j` ends: a lone `/`, or a name character and
/// the characters up to the next `/`.
pub open spec fn name_end(s: Seq<char>, j: int) -> Option<int> {
    if 0 <= j < s.len() {
        if s[j] == '/' {
            Some(j + 1)
        } else if name_char(s[j]) {
            Some(slash_stop(s, j + 1))
        } else {
            None
        }
    } else {
        None
    }
}

/// No line feed in `s[a..b]`.
pub open spec fn newline_free(s: Seq<char>, a: int, b: int) -> bool {
    forall|i: int| a <= i < b ==> s[i] != '\n'
}

/// A namespace starting at `o` ends with the last `/` at or before `j` (after `o`, with no
/// line feed between) that a name running to the end of `s` follows; the result is the
/// namespace's end and the name's end.
pub open spec fn namespace_search(s: Seq<char>, o: int, j: int) -> Option<(int, int)>
    decreases j - o,
{
    if j <= o {
        None
    } else if s[j] == '/' && newline_free(s, o + 1, j) && name_end(s, j + 1) == Some(s.len() as int) {
        Some((j + 1, s.len() as int))
    } else {
        namespace_search(s, o, j - 1)
    }
}

/// The namespace and the name found from `o`, the name running to the end of `s`: a
/// namespace where one can be had, the longest first; otherwise a name alone.
pub open spec fn captures_from(s: Seq<char>, o: int) -> Option<(Option<(int, int)>, (int, int))> {
    if 0 <= o < s.len() && name_char(s[o]) && namespace_search(s, o, s.len() - 1) is Some {
        let (a, e) = namespace_search(s, o, s.len() - 1)->0;
        Some((Some((o, a)), (a, e)))
    } else if name_end(s, o) == Some(s.len() as int) {
        Some((None, (o, s.len() as int)))
    } else {
        None
    }
}

/// The symbol pattern of the reader, `[:]?([\D&&[^/]].*/)?(/|[\D&&[^/]][^/]*)`, matched
/// against the whole token (as `Matcher::matches` does): the ranges of the namespace (with
/// its `/`) and of the name. A leading `:` is skipped when the rest matches.
pub open spec fn symbol_captures(s: Seq<char>) -> Option<(Option<(int, int)>, (int, int))> {
    if s.len() > 0 && s[0] == ':' && captures_from(s, 1) is Some {
        captures_from(s, 1)
    } else {
        captures_from(s, 0)
    }
}

/// Two colons in a row, at or after position `from`.
pub open spec fn has_double_colon(s: Seq<char>, from: int) -> bool {
    exists|i: int| from <= i && i + 1 < s.len() && #[trigger] s[i] == ':' && s[i + 1] == ':'
}

/// What a token names: `Some(v)` for a symbol or keyword `v`, `None` where the token is
/// neither: the pattern does not match it, the namespace or name ends with `:`, or `::`
/// stands in it after its first character or at its start.
pub open spec fn symbol_value(s: Seq<char>) -> Option<EdnValue> {
    match symbol_captures(s) {
        None => None,
        Some((ns, (a, e))) => {
            let ns_colon = ns matches Some((x, y)) && y - x >= 2 && s[y - 2] == ':' && s[y - 1] == '/';
            let name_colon = e > a && s[e - 1] == ':';
            if ns_colon || name_colon {
                None
            } else if has_double_colon(s, 1) {
                None
            } else if s.len() >= 2 && s[0] == ':' && s[1] == ':' {
                None
            } else if s[0] == ':' {
                Some(EdnValue::Keyword(s.drop_first()))
            } else {
                Some(EdnValue::Symbol(s))
            }
        },
    }
}

/// The namespace and name of a symbol's text, as the symbol pattern splits it.
pub open spec fn symbol_parts(s: Seq<char>) -> Option<(Option<Seq<char>>, Seq<char>)> {
    match symbol_captures(s) {
        None => None,
        Some((ns, (a, e))) => Some(
            (
                match ns {
                    Some((x, y)) => Some(s.subrange(x, y)),
                    None => None,
                },
                s.subrange(a, e),
            ),
        ),
    }
}

/// What a token read at its end position `p` denotes: `nil`, `true`, `false`,
/// or a symbol or keyword.
pub open spec fn token_value(t: Seq<char>, p: int) -> Parsed<EdnValue> {
    if t == "nil"@ {
        Parsed::Done(EdnValue::Nil, p)
    } else if t == "true"@ {
        Parsed::Done(EdnValue::Bool(true), p)
    } else if t == "false"@ {
        Parsed::Done(EdnValue::Bool(false), p)
    } else {
        match symbol_value(t) {
            None => Parsed::Fail("Invalid token: "@ + t, p),
            Some(v) => Parsed::Done(v, p),
        }
    }
}

fn is_name_char(c: char) -> (r: bool)
    ensures
        r == name_char(c),
{
    !is_unicode_decimal_digit(c) && c != '/'
}

fn find_slash(s: &Vec<char>, i: usize) -> (r: usize)
    requires
        i <= s@.len(),
    ensures
        r as int == slash_stop(s@, i as int),
        i <= r <= s@.len(),
{
    let mut k = i;
    while k < s.len() && s[k] != '/'
        invariant
            i <= k <= s@.len(),
            slash_stop(s@, k as int) == slash_stop(s@, i as int),
        decreases s@.len() - k,
    {
        k = k + 1;
    }
    k
}

fn find_name_end(s: &Vec<char>, j: usize) -> (r: Option<usize>)
    ensures
        match r {
            Some(e) => name_end(s@, j as int) == Some(e as int) && j < e <= s@.len(),
            None => name_end(s@, j as int) is None,
        },
{
    if j < s.len() {
        if s[j] == '/' {
            Some(j + 1)
        } else if is_name_char(s[j]) {
            Some(find_slash(s, j + 1))
        } else {
            None
        }
    } else {
        None
    }
}

fn is_newline_free(s: &Vec<char>, a: usize, b: usize) -> (r: bool)
    requires
        a <= b <= s@.len(),
    ensures
        r == newline_free(s@, a as int, b as int),
{
    let mut i = a;
    while i < b
        invariant
            a <= i <= b <= s@.len(),
            newline_free(s@, a as int, i as int),
        decreases b - i,
    {
        if s[i] == '\n' {
            return false;
        }
        i = i + 1;
    }
    true
}

fn find_namespace(s: &Vec<char>, o: usize) -> (r: Option<(usize, usize)>)
    requires
        o < s@.len(),
    ensures
        match r {
            Some((a, e)) => namespace_search(s@, o as int, s@.len() - 1) == Some((a as int, e as int))
                && o + 2 <= a < e <= s@.len(),
            None => namespace_search(s@, o as int, s@.len() - 1) is None,
        },
{
    let n = s.len();
    let mut j = n - 1;
    while j > o
        invariant
            o <= j < n,
            n == s@.len(),
            namespace_search(s@, o as int, j as int) == namespace_search(s@, o as int, s@.len() - 1),
        decreases j,
    {
        if s[j] == '/' && is_newline_free(s, o + 1, j) {
            match find_name_end(s, j + 1) {
                Some(e) => {
                    if e == n {
                        return Some((j + 1, e));
                    }
                },
                None => {},
            }
        }
        j = j - 1;
    }
    None
}

/// The captures of the symbol pattern, as positions.
pub open spec fn captures_model(r: Option<(Option<(usize, usize)>, (usize, usize))>) -> Option<
    (Option<(int, int)>, (int, int)),
> {
    match r {
        None => None,
        Some((ns, (a, e))) => Some(
            (
                match ns {
                    Some((x, y)) => Some((x as int, y as int)),
                    None => None,
                },
                (a as int, e as int),
            ),
        ),
    }
}

fn captures_at(s: &Vec<char>, o: usize) -> (r: Option<(Option<(usize, usize)>, (usize, usize))>)
    ensures
        captures_model(r) == captures_from(s@, o as int),
        r matches Some((ns, (a, e))) ==> a < e <= s@.len() && (ns matches Some((x, y)) ==> x + 2
            <= y == a),
{
    if o < s.len() && is_name_char(s[o]) {
        match find_namespace(s, o) {
            Some((a, e)) => {
                return Some((Some((o, a)), (a, e)));
            },
            None => {},
        }
    }
    match find_name_end(s, o) {
        Some(e) => {
            if e == s.len() {
                Some((None, (o, e)))
            } else {
                None
            }
        },
        None => None,
    }
}

fn symbol_captures_of(s: &Vec<char>) -> (r: Option<(Option<(usize, usize)>, (usize, usize))>)
    ensures
        captures_model(r) == symbol_captures(s@),
        r matches Some((ns, (a, e))) ==> a < e <= s@.len() && (ns matches Some((x, y)) ==> x + 2
            <= y == a),
{
    if s.len() > 0 && s[0] == ':' {
        let c = captures_at(s, 1);
        if c.is_some() {
            return c;
        }
    }
    captures_at(s, 0)
}

fn double_colon_from(s: &Vec<char>, from: usize) -> (r: bool)
    ensures
        r == has_double_colon(s@, from as int),
{
    let mut i = from;
    while i < s.len()
        invariant
            from <= i,
            forall|k: int| from <= k < i && k + 1 < s@.len() ==> !(#[trigger] s@[k] == ':' && s@[k + 1] == ':'),
        decreases s@.len() - i,
    {
        if i + 1 < s.len() && s[i] == ':' && s[i + 1] == ':' {
            return true;
        }
        i = i + 1;
    }
    false
}

/// The symbol or keyword that a token names, or `None` (see `symbol_value`).
pub fn match_symbol(s: &Vec<char>) -> (r: Option<Edn>)
    ensures
        match r {
            None => symbol_value(s@) is None,
            Some(v) => symbol_value(s@) == Some(v.model()),
        },
{
    match symbol_captures_of(s) {
        None => None,
        Some((ns, (a, e))) => {
            let ns_colon = match ns {
                Some((x, y)) => s[y - 2] == ':' && s[y - 1] == '/',
                None => false,
            };
            let name_colon = s[e - 1] == ':';
            if ns_colon || name_colon {
                return None;
            }
            if double_colon_from(s, 1) {
                return None;
            }
            if s.len() >= 2 && s[0] == ':' && s[1] == ':' {
                return None;
            }
            if s[0] == ':' {
                let k = substring(s, 1, s.len());
                assert(s@.subrange(1, s@.len() as int) =~= s@.drop_first());
                Some(Edn::Keyword(k))
            } else {
                Some(Edn::Symbol(string_of(s)))
            }
        },
    }
}

/// Splits a symbol's text into its namespace (with the `/`) and its name.
pub fn symbol_split(s: &Vec<char>) -> (r: Option<(Option<String>, String)>)
    ensures
        match r {
            None => symbol_parts(s@) is None,
            Some((ns, name)) => symbol_parts(s@) == Some(
                (
                    match ns {
                        Some(x) => Some(x@),
                        None => None::<Seq<char>>,
                    },
                    name@,
                ),
            ),
        },
{
    match symbol_captures_of(s) {
        None => None,
        Some((ns, (a, e))) => {
            let name = substring(s, a, e);
            let nss = match ns {
                Some((x, y)) => {
                    Some(substring(s, x, y))
                },
                None => None,
            };
            Some((nss, name))
        },
    }
}

/// What the token `t`, which ended at `pos`, denotes.
pub fn interpret_token(t: &Vec<char>, pos: usize) -> (r: Result<(Edn, usize), ReadFailure>)
    ensures
        agrees(r, token_value(t@, pos as int), |e: Edn| e.model()),
        r matches Ok((_, q)) ==> q == pos,
        r matches Err(ReadFailure::Error(_, q)) ==> q == pos,
{
    if chars_equal(t, 0, t.len(), "nil") {
        assert(t@.subrange(0, t@.len() as int) =~= t@);
        return Ok((Edn::Nil, pos));
    }
    if chars_equal(t, 0, t.len(), "true") {
        assert(t@.subrange(0, t@.len() as int) =~= t@);
        return Ok((Edn::Bool(true), pos));
    }
    if chars_equal(t, 0, t.len(), "false") {
        assert(t@.subrange(0, t@.len() as int) =~= t@);
        return Ok((Edn::Bool(false), pos));
    }
    assert(t@.subrange(0, t@.len() as int) =~= t@);
    match match_symbol(t) {
        None => {
            let m = message("Invalid token: ", t, 0, t.len());
            Err(ReadFailure::Error(m, pos))
        },
        Some(v) => Ok((v, pos)),
    }
}

} // verus!
