//! Printing what the reader reads, and the reply of the Clojure reader that the
//! printed text is held against.
use vstd::prelude::*;
use crate::chars::{white_space, is_unicode_whitespace};
use crate::display::edn_text;
use crate::edn::EdnValue;
use crate::reader::{read_at, read_str};
use crate::syntax::Parsed;
use crate::text::{chars_of, substring};
use vstd::string::StringExecFns;
use vstd::string::StrSliceExecFns;

verus! {

/// What printing the first form of a text gives: its text, or the reader's error.
pub open spec fn printed(p: Parsed<EdnValue>, r: Result<String, String>) -> bool {
    match p {
        Parsed::Done(v, _) => r matches Ok(t) && t@ == edn_text(v),
        Parsed::Fail(m, _) => r matches Err(e) && e@ == m,
        Parsed::Panics => false,
    }
}

/// Reads the first form of `input` and prints it, or gives the reader's error.
pub fn rust_edn(input: &str) -> (r: Result<String, String>)
    ensures
        printed(read_at(input@, 0), r),
{
    let a = read_str(String::from_str(input))?;
    let b = a.to_text();
    Ok(b)
}

/// `s` without leading whitespace.
pub open spec fn trim_start(s: Seq<char>) -> Seq<char>
    decreases s.len(),
{
    if s.len() > 0 && white_space(s[0]) {
        trim_start(s.drop_first())
    } else {
        s
    }
}

/// `s` without trailing whitespace.
pub open spec fn trim_end(s: Seq<char>) -> Seq<char>
    decreases s.len(),
{
    if s.len() > 0 && white_space(s.last()) {
        trim_end(s.drop_last())
    } else {
        s
    }
}

/// `s` without leading or trailing whitespace, as `str::trim` gives it.
pub open spec fn trim(s: Seq<char>) -> Seq<char> {
    trim_end(trim_start(s))
}

/// The second line of `s` (the text between its first and second line feed), or
/// nothing when `s` has a single line.
pub open spec fn second_line(s: Seq<char>) -> Seq<char> {
    if exists|i: int| 0 <= i < s.len() && s[i] == '\n' {
        let i = choose|i: int| 0 <= i < s.len() && s[i] == '\n' && forall|j: int| 0 <= j < i ==> s[j] != '\n';
        let rest = s.skip(i + 1);
        if exists|k: int| 0 <= k < rest.len() && rest[k] == '\n' {
            let k = choose|k: int| 0 <= k < rest.len() && rest[k] == '\n' && forall|j: int| 0 <= j < k ==> rest[j] != '\n';
            rest.take(k)
        } else {
            rest
        }
    } else {
        Seq::empty()
    }
}

/// The line that the Java runtime writes first on the Clojure reader's error stream.
pub open spec fn java_notice() -> Seq<char> {
    "Picked up _JAVA_OPTIONS: -Djava.util.prefs.userRoot=/home/user/.config/java\n"@
}

/// The answer of the Clojure reader from what it wrote: the error stream, after the Java
/// notice, is trimmed; its second line, when there is one, is the error, reported after
/// what was written to the output; otherwise the trimmed output is the printed value.
pub open spec fn clojure_answer(output: Seq<char>, err: Seq<char>) -> Result<Seq<char>, Seq<char>> {
    let e = second_line(trim(err.skip(java_notice().len() as int)));
    if e.len() == 0 {
        Ok(trim(output))
    } else {
        Err(trim(output + e))
    }
}

fn trimmed(cs: &Vec<char>, from: usize, to: usize) -> (r: String)
    requires
        from <= to <= cs@.len(),
    ensures
        r@ == trim(cs@.subrange(from as int, to as int)),
{
    let mut a = from;
    while a < to && is_unicode_whitespace(cs[a])
        invariant
            from <= a <= to <= cs@.len(),
            trim_start(cs@.subrange(from as int, to as int)) == trim_start(cs@.subrange(a as int, to as int)),
        decreases to - a,
    {
        assert(cs@.subrange(a as int, to as int).drop_first() =~= cs@.subrange(a + 1, to as int));
        a = a + 1;
    }
    assert(a < to ==> cs@.subrange(a as int, to as int)[0] == cs@[a as int]);
    let mut b = to;
    while b > a && is_unicode_whitespace(cs[b - 1])
        invariant
            from <= a <= b <= to <= cs@.len(),
            trim(cs@.subrange(from as int, to as int)) == trim_end(cs@.subrange(a as int, b as int)),
        decreases b - a,
    {
        assert(cs@.subrange(a as int, b as int).drop_last() =~= cs@.subrange(a as int, b - 1));
        b = b - 1;
    }
    assert(b > a ==> cs@.subrange(a as int, b as int).last() == cs@[b - 1]);
    substring(cs, a, b)
}

fn first_newline(cs: &Vec<char>, from: usize, to: usize) -> (r: usize)
    requires
        from <= to <= cs@.len(),
    ensures
        from <= r <= to,
        r < to ==> cs@[r as int] == '\n',
        forall|j: int| from <= j < r ==> cs@[j] != '\n',
{
    let mut i = from;
    while i < to && cs[i] != '\n'
        invariant
            from <= i <= to <= cs@.len(),
            forall|j: int| from <= j < i ==> cs@[j] != '\n',
        decreases to - i,
    {
        i = i + 1;
    }
    i
}

fn second_line_of(t: &Vec<char>) -> (r: String)
    ensures
        r@ == second_line(t@),
{
    let ghost tt = t@;
    let i = first_newline(t, 0, t.len());
    if i < t.len() {
        let k = first_newline(t, i + 1, t.len());
        proof {
            let rest = tt.skip(i + 1);
            assert(exists|j: int| 0 <= j < tt.len() && tt[j] == '\n');
            let c = choose|j: int| 0 <= j < tt.len() && tt[j] == '\n' && forall|m: int| 0 <= m < j ==> tt[m] != '\n';
            assert(c == i) by {
                if c < i { assert(tt[c] != '\n'); }
                if c > i { assert(tt[i as int] != '\n'); }
            }
            if k < t.len() {
                assert(rest[k - i - 1] == '\n');
                assert(exists|j: int| 0 <= j < rest.len() && rest[j] == '\n');
                let d = choose|j: int| 0 <= j < rest.len() && rest[j] == '\n' && forall|m: int| 0 <= m < j ==> rest[m] != '\n';
                assert(d == k - i - 1) by {
                    if d < k - i - 1 { assert(rest[d] == tt[d + i + 1]); }
                    if d > k - i - 1 { assert(rest[k - i - 1] != '\n'); }
                }
                assert(rest.take(d) =~= tt.subrange(i + 1, k as int));
            } else {
                assert forall|j: int| 0 <= j < rest.len() implies rest[j] != '\n' by {
                    assert(rest[j] == tt[j + i + 1]);
                }
                assert(rest =~= tt.subrange(i + 1, k as int));
            }
        }
        substring(t, i + 1, k)
    } else {
        assert(!exists|j: int| 0 <= j < tt.len() && tt[j] == '\n');
        String::new()
    }
}

/// The answer of the Clojure reader, from its output and error streams
/// (see `clojure_answer`). The error stream starts with the Java notice.
pub fn clojure_reply(output: &str, err: &str) -> (r: Result<String, String>)
    requires
        java_notice().is_prefix_of(err@),
    ensures
        match clojure_answer(output@, err@) {
            Ok(t) => r matches Ok(x) && x@ == t,
            Err(t) => r matches Err(x) && x@ == t,
        },
{
    let notice = "Picked up _JAVA_OPTIONS: -Djava.util.prefs.userRoot=/home/user/.config/java\n";
    let cs = chars_of(err);
    let start = notice.unicode_len();
    let rest_trimmed = trimmed(&cs, start, cs.len());
    assert(cs@.subrange(start as int, cs@.len() as int) =~= err@.skip(java_notice().len() as int));
    let t = chars_of(rest_trimmed.as_str());
    let line = second_line_of(&t);
    let out = chars_of(output);
    if line.unicode_len() == 0 {
        assert(out@.subrange(0, out@.len() as int) =~= output@);
        Ok(trimmed(&out, 0, out.len()))
    } else {
        let mut joined = String::from_str(output);
        joined.append(line.as_str());
        let jc = chars_of(joined.as_str());
        assert(jc@.subrange(0, jc@.len() as int) =~= jc@);
        Err(trimmed(&jc, 0, jc.len()))
    }
}

} // verus!

verus! {

proof fn lemma_trim_start(s: Seq<char>)
    ensures
        exists|a: int| #![trigger s.skip(a)] 0 <= a <= s.len() && trim_start(s) == s.skip(a)
            && (forall|i: int| 0 <= i < a ==> white_space(#[trigger] s[i]))
            && (a < s.len() ==> !white_space(s[a])),
    decreases s.len(),
{
    if s.len() > 0 && white_space(s[0]) {
        lemma_trim_start(s.drop_first());
        let a = choose|a: int| #![trigger s.drop_first().skip(a)] 0 <= a <= s.drop_first().len()
            && trim_start(s.drop_first()) == s.drop_first().skip(a)
            && (forall|i: int| 0 <= i < a ==> white_space(#[trigger] s.drop_first()[i]))
            && (a < s.drop_first().len() ==> !white_space(s.drop_first()[a]));
        assert(s.drop_first().skip(a) =~= s.skip(a + 1));
        assert forall|i: int| 0 <= i < a + 1 implies white_space(#[trigger] s[i]) by {
            if i > 0 {
                assert(s[i] == s.drop_first()[i - 1]);
            }
        }
        if a + 1 < s.len() {
            assert(s[a + 1] == s.drop_first()[a]);
        }
    } else {
        assert(s.skip(0) =~= s);
    }
}

proof fn lemma_trim_end(s: Seq<char>)
    ensures
        exists|b: int| #![trigger s.take(b)] 0 <= b <= s.len() && trim_end(s) == s.take(b)
            && (forall|i: int| b <= i < s.len() ==> white_space(#[trigger] s[i]))
            && (b > 0 ==> !white_space(s[b - 1])),
    decreases s.len(),
{
    if s.len() > 0 && white_space(s.last()) {
        lemma_trim_end(s.drop_last());
        let b = choose|b: int| #![trigger s.drop_last().take(b)] 0 <= b <= s.drop_last().len()
            && trim_end(s.drop_last()) == s.drop_last().take(b)
            && (forall|i: int| b <= i < s.drop_last().len() ==> white_space(#[trigger] s.drop_last()[i]))
            && (b > 0 ==> !white_space(s.drop_last()[b - 1]));
        assert(s.drop_last().take(b) =~= s.take(b));
        assert forall|i: int| b <= i < s.len() implies white_space(#[trigger] s[i]) by {
            if i < s.len() - 1 {
                assert(s[i] == s.drop_last()[i]);
            }
        }
        if b > 0 {
            assert(s[b - 1] == s.drop_last()[b - 1]);
        }
    } else {
        assert(s.take(s.len() as int) =~= s);
    }
}

/// Trimming removes exactly the white space at both ends: what is left is a piece of the
/// text, everything before and after it is white space, and it neither starts nor ends
/// with white space.
pub proof fn law_trim(s: Seq<char>)
    ensures
        exists|a: int, b: int| #![trigger s.subrange(a, b)] 0 <= a <= b <= s.len() && trim(s) == s.subrange(a, b)
            && (forall|i: int| 0 <= i < a ==> white_space(#[trigger] s[i]))
            && (forall|i: int| b <= i < s.len() ==> white_space(#[trigger] s[i]))
            && (a < b ==> !white_space(s[a]) && !white_space(s[b - 1])),
{
    lemma_trim_start(s);
    let a = choose|a: int| #![trigger s.skip(a)] 0 <= a <= s.len() && trim_start(s) == s.skip(a)
        && (forall|i: int| 0 <= i < a ==> white_space(#[trigger] s[i]))
        && (a < s.len() ==> !white_space(s[a]));
    let t = s.skip(a);
    lemma_trim_end(t);
    let b = choose|b: int| #![trigger t.take(b)] 0 <= b <= t.len() && trim_end(t) == t.take(b)
        && (forall|i: int| b <= i < t.len() ==> white_space(#[trigger] t[i]))
        && (b > 0 ==> !white_space(t[b - 1]));
    assert(t.take(b) =~= s.subrange(a, a + b));
    assert forall|i: int| a + b <= i < s.len() implies white_space(#[trigger] s[i]) by {
        assert(s[i] == t[i - a]);
    }
    if b > 0 {
        assert(s[a] == t[0]);
        assert(s[a + b - 1] == t[b - 1]);
    }
    assert(trim(s) == s.subrange(a, a + b));
}

/// The second line: after the first line feed, up to the next line feed or the end; a
/// text without a line feed has none.
pub proof fn law_second_line(a: Seq<char>, b: Seq<char>, c: Seq<char>)
    requires
        forall|i: int| 0 <= i < a.len() ==> #[trigger] a[i] != '\n',
        forall|i: int| 0 <= i < b.len() ==> #[trigger] b[i] != '\n',
    ensures
        second_line(a) == Seq::<char>::empty(),
        second_line(a + seq!['\n'] + b) == b,
        second_line(a + seq!['\n'] + b + seq!['\n'] + c) == b,
{
    let s1 = a + seq!['\n'] + b;
    let s2 = a + seq!['\n'] + b + seq!['\n'] + c;
    let n = a.len() as int;
    assert(s1[n] == '\n');
    assert(s2[n] == '\n');
    assert forall|i: int| 0 <= i < n implies s1[i] != '\n' && s2[i] != '\n' by {
        assert(s1[i] == a[i]);
        assert(s2[i] == a[i]);
    }
    let i1 = choose|i: int| 0 <= i < s1.len() && s1[i] == '\n' && forall|j: int| 0 <= j < i ==> s1[j] != '\n';
    assert(i1 == n) by {
        if i1 < n { assert(s1[i1] != '\n'); }
        if i1 > n { assert(s1[n] == '\n'); }
    }
    assert(s1.skip(n + 1) =~= b);
    let i2 = choose|i: int| 0 <= i < s2.len() && s2[i] == '\n' && forall|j: int| 0 <= j < i ==> s2[j] != '\n';
    assert(i2 == n) by {
        if i2 < n { assert(s2[i2] != '\n'); }
        if i2 > n { assert(s2[n] == '\n'); }
    }
    let rest = s2.skip(n + 1);
    assert(rest =~= b + seq!['\n'] + c);
    let m = b.len() as int;
    assert(rest[m] == '\n');
    assert forall|j: int| 0 <= j < m implies rest[j] != '\n' by {
        assert(rest[j] == b[j]);
    }
    let k = choose|k: int| 0 <= k < rest.len() && rest[k] == '\n' && forall|j: int| 0 <= j < k ==> rest[j] != '\n';
    assert(k == m) by {
        if k < m { assert(rest[k] != '\n'); }
        if k > m { assert(rest[m] == '\n'); }
    }
    assert(rest.take(m) =~= b);
}

} // verus!
