//! The lexical layer of the reader: character classes, whitespace, tokens.
use vstd::prelude::*;
use crate::chars::{white_space, is_unicode_whitespace};
use crate::text::message_char;

verus! {

/// What reading from a position gives: a result and the position after it, or an error
/// message and the position the reader had reached. `Panics` is what a character code
/// that overflows `u32` gives; elsewhere it fills the branches that positions inside the
/// text rule out, and reading from a position in the text never gives it.
pub enum Parsed<T> {
    Done(T, int),
    Fail(Seq<char>, int),
    Panics,
}

/// Why reading stopped: an error message and the position reached.
#[derive(Debug)]
pub enum ReadFailure {
    Error(String, usize),
}

/// The executable result `r` is the outcome `p`, with results related by `f`.
pub open spec fn agrees<A, B>(r: Result<(A, usize), ReadFailure>, p: Parsed<B>, f: spec_fn(A) -> B) -> bool {
    match r {
        Ok((a, n)) => p == Parsed::Done(f(a), n as int),
        Err(ReadFailure::Error(m, n)) => p == Parsed::<B>::Fail(m@, n as int),
    }
}

/// The characters that start a reader macro.
pub open spec fn macro_char(c: char) -> bool {
    c == '"' || c == ';' || c == '^' || c == '(' || c == ')' || c == '[' || c == ']' || c == '{'
        || c == '}' || c == '\\' || c == '#'
}

/// Macro characters that end a token: all but `#` (and `'`, which is none).
pub open spec fn terminating_macro_char(c: char) -> bool {
    c != '#' && c != '\'' && macro_char(c)
}

/// Characters that may not stand in a token.
pub open spec fn non_constituent_char(c: char) -> bool {
    c == '@' || c == '`' || c == '~'
}

/// Whitespace for the reader: Unicode whitespace and the comma.
pub open spec fn whitespace_char(c: char) -> bool {
    white_space(c) || c == ','
}

/// An ASCII decimal digit.
pub open spec fn decimal_char(c: char) -> bool {
    '0' <= c && c <= '9'
}

/// Whether `ch` starts a reader macro.
pub fn is_macro(ch: char) -> (r: bool)
    ensures
        r == macro_char(ch),
{
    ch == '"' || ch == ';' || ch == '^' || ch == '(' || ch == ')' || ch == '[' || ch == ']'
        || ch == '{' || ch == '}' || ch == '\\' || ch == '#'
}

/// Whether `ch` is a macro character that ends a token.
pub fn is_terminating_macro(ch: char) -> (r: bool)
    ensures
        r == terminating_macro_char(ch),
{
    ch != '#' && ch != '\'' && is_macro(ch)
}

/// Whether `ch` may not stand in a token.
pub fn non_constituent(ch: char) -> (r: bool)
    ensures
        r == non_constituent_char(ch),
{
    ch == '@' || ch == '`' || ch == '~'
}

/// Whether `ch` is whitespace for the reader.
pub fn is_whitespace(ch: char) -> (r: bool)
    ensures
        r == whitespace_char(ch),
{
    is_unicode_whitespace(ch) || ch == ','
}

/// The first position at or after `p` that is not whitespace (or the end of input).
pub open spec fn skip_ws(s: Seq<char>, p: int) -> int
    decreases s.len() - p,
{
    if 0 <= p < s.len() && whitespace_char(s[p]) {
        skip_ws(s, p + 1)
    } else {
        p
    }
}

/// Skipping whitespace moves forward, stays in the text, and stops at a character
/// that is not whitespace (or at the end).
pub proof fn lemma_skip_ws(s: Seq<char>, p: int)
    requires
        0 <= p <= s.len(),
    ensures
        p <= skip_ws(s, p) <= s.len(),
        skip_ws(s, p) < s.len() ==> !whitespace_char(s[skip_ws(s, p)]),
    decreases s.len() - p,
{
    if p < s.len() && whitespace_char(s[p]) {
        lemma_skip_ws(s, p + 1);
    }
}

/// The position after the whitespace at `pos`.
pub fn skip_ws_at(s: &Vec<char>, pos: usize) -> (r: usize)
    requires
        pos <= s@.len(),
    ensures
        r as int == skip_ws(s@, pos as int),
        pos <= r <= s@.len(),
        r < s@.len() ==> !whitespace_char(s@[r as int]),
{
    let mut p = pos;
    proof { lemma_skip_ws(s@, pos as int); }
    while p < s.len() && is_whitespace(s[p])
        invariant
            pos <= p <= s@.len(),
            skip_ws(s@, p as int) == skip_ws(s@, pos as int),
        decreases s@.len() - p,
    {
        p = p + 1;
    }
    p
}

/// The first position at or after `p` where a token stops: the end of input,
/// whitespace, a terminating macro character or a non-constituent character.
pub open spec fn token_stop(s: Seq<char>, p: int) -> int
    decreases s.len() - p,
{
    if 0 <= p < s.len() && !whitespace_char(s[p]) && !terminating_macro_char(s[p])
        && !non_constituent_char(s[p]) {
        token_stop(s, p + 1)
    } else {
        p
    }
}

/// A token's end lies between its start and the end of the text, and every character
/// before it may stand in a token.
pub proof fn lemma_token_stop(s: Seq<char>, p: int)
    requires
        0 <= p <= s.len(),
    ensures
        p <= token_stop(s, p) <= s.len(),
        forall|i: int| p <= i < token_stop(s, p) ==> !whitespace_char(#[trigger] s[i])
            && !terminating_macro_char(s[i]) && !non_constituent_char(s[i]),
    decreases s.len() - p,
{
    if p < s.len() && !whitespace_char(s[p]) && !terminating_macro_char(s[p])
        && !non_constituent_char(s[p]) {
        lemma_token_stop(s, p + 1);
    }
}

/// A token that starts with `ch` (already consumed) and goes on from `p`.
/// A leading non-constituent character is refused when `lead_constituent` holds;
/// a non-constituent character inside the token is refused always.
pub open spec fn token_at(s: Seq<char>, p: int, ch: char, lead_constituent: bool) -> Parsed<Seq<char>> {
    if lead_constituent && non_constituent_char(ch) {
        Parsed::Fail("Invalid leading leading character: "@.push(ch), p)
    } else {
        let e = token_stop(s, p);
        if e < s.len() && !whitespace_char(s[e]) && !terminating_macro_char(s[e]) {
            Parsed::Fail("Invalid contituent character: "@.push(s[e]), e)
        } else {
            Parsed::Done(seq![ch] + s.subrange(p, e), e)
        }
    }
}

/// Reads the rest of a token that starts with `ch`, from `pos`.
pub fn token_from(s: &Vec<char>, pos: usize, ch: char, lead_constituent: bool) -> (r: Result<(Vec<char>, usize), ReadFailure>)
    requires
        pos <= s@.len(),
    ensures
        agrees(r, token_at(s@, pos as int, ch, lead_constituent), |v: Vec<char>| v@),
        r matches Ok((_, q)) ==> pos <= q <= s@.len(),
        r matches Err(ReadFailure::Error(_, q)) ==> q <= s@.len(),
{
    if lead_constituent && non_constituent(ch) {
        return Err(ReadFailure::Error(message_char("Invalid leading leading character: ", ch), pos));
    }
    let mut out: Vec<char> = Vec::new();
    out.push(ch);
    let mut p = pos;
    proof { lemma_token_stop(s@, pos as int); }
    while p < s.len() && !is_whitespace(s[p]) && !is_terminating_macro(s[p]) && !non_constituent(s[p])
        invariant
            pos <= p <= s@.len(),
            token_stop(s@, p as int) == token_stop(s@, pos as int),
            out@ == seq![ch] + s@.subrange(pos as int, p as int),
        decreases s@.len() - p,
    {
        out.push(s[p]);
        assert(s@.subrange(pos as int, p + 1) =~= s@.subrange(pos as int, p as int).push(s@[p as int]));
        p = p + 1;
    }
    if p < s.len() && !is_whitespace(s[p]) && !is_terminating_macro(s[p]) {
        return Err(ReadFailure::Error(message_char("Invalid contituent character: ", s[p]), p));
    }
    Ok((out, p))
}

} // verus!
