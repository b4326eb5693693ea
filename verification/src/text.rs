//! Conversions between strings and character vectors.
use vstd::prelude::*;
use vstd::string::StrSliceExecFns;
use vstd::string::StringExecFns;

verus! {

broadcast use vstd::string::group_string_axioms;

/// The characters of `s`, in order.
pub fn chars_of(s: &str) -> (r: Vec<char>)
    ensures
        r@ == s@,
{
    let mut out: Vec<char> = Vec::new();
    for c in it: s.chars()
        invariant
            out@ == it.seq().take(it.index() as int),
            it.seq() == s@,
    {
        out.push(c);
    }
    out
}


/// A string holding the given characters.
pub fn string_of(cs: &Vec<char>) -> (r: String)
    ensures
        r@ == cs@,
{
    let mut out = String::new();
    let mut i: usize = 0;
    while i < cs.len()
        invariant
            0 <= i <= cs@.len(),
            out@ == cs@.take(i as int),
        decreases cs@.len() - i,
    {
        out.push(cs[i]);
        assert(cs@.take(i + 1) =~= cs@.take(i as int).push(cs@[i as int]));
        i = i + 1;
    }
    assert(cs@.take(i as int) =~= cs@);
    out
}

/// Appends the characters `cs[from..to]` to `out`.
pub fn push_chars(out: &mut String, cs: &Vec<char>, from: usize, to: usize)
    requires
        from <= to <= cs@.len(),
    ensures
        final(out)@ == old(out)@ + cs@.subrange(from as int, to as int),
{
    let ghost start = out@;
    let mut i: usize = from;
    while i < to
        invariant
            from <= i <= to <= cs@.len(),
            out@ == start + cs@.subrange(from as int, i as int),
        decreases to - i,
    {
        out.push(cs[i]);
        assert(cs@.subrange(from as int, i + 1) =~= cs@.subrange(from as int, i as int).push(cs@[i as int]));
        i = i + 1;
    }
}

/// A string made of the literal `lit` followed by the characters `cs[from..to]`.
pub fn message(lit: &str, cs: &Vec<char>, from: usize, to: usize) -> (r: String)
    requires
        from <= to <= cs@.len(),
    ensures
        r@ == lit@ + cs@.subrange(from as int, to as int),
{
    let mut out = String::from_str(lit);
    push_chars(&mut out, cs, from, to);
    out
}

/// A string made of the literal `lit` followed by one character.
pub fn message_char(lit: &str, c: char) -> (r: String)
    ensures
        r@ == lit@.push(c),
{
    let mut out = String::from_str(lit);
    out.push(c);
    out
}

/// Whether `cs[from..to]` is the text of the literal `lit`.
pub fn chars_equal(cs: &Vec<char>, from: usize, to: usize, lit: &str) -> (r: bool)
    requires
        from <= to <= cs@.len(),
    ensures
        r == (cs@.subrange(from as int, to as int) == lit@),
{
    let n = lit.unicode_len();
    if n != to - from {
        return false;
    }
    let mut i: usize = 0;
    while i < n
        invariant
            0 <= i <= n,
            n == lit@.len(),
            n == to - from,
            from <= to <= cs@.len(),
            forall|j: int| 0 <= j < i ==> cs@[from + j] == lit@[j],
        decreases n - i,
    {
        if cs[from + i] != lit.get_char(i) {
            assert(cs@.subrange(from as int, to as int)[i as int] != lit@[i as int]);
            return false;
        }
        i = i + 1;
    }
    assert(cs@.subrange(from as int, to as int) =~= lit@);
    true
}


/// A string holding the characters `cs[from..to]`.
pub fn substring(cs: &Vec<char>, from: usize, to: usize) -> (r: String)
    requires
        from <= to <= cs@.len(),
    ensures
        r@ == cs@.subrange(from as int, to as int),
{
    let mut out = String::new();
    push_chars(&mut out, cs, from, to);
    assert(out@ =~= cs@.subrange(from as int, to as int));
    out
}

} // verus!
