//! Numbers: where a number's text stops, and the value it denotes.
use vstd::prelude::*;
use crate::bigint::{float_model, BigInteger, decimal_value, canonical_digits, le_value, le_mul_add, le_to_be, all_digits, lemma_zero_value};
use crate::chars::{digit_value, to_digit};
use crate::edn::{Edn, EdnValue, Decimal, Ratio};
use crate::numeric::{reduced_ratio, reduce_ratio, integer_of_text};
use crate::text::string_of;
use crate::syntax::{Parsed, ReadFailure, agrees, whitespace_char, macro_char, decimal_char, is_whitespace, is_macro};
use crate::text::message;

verus! {

/// The first position at or after `p` where a number's text stops: the end of input,
/// whitespace or a macro character.
pub open spec fn number_stop(s: Seq<char>, p: int) -> int
    decreases s.len() - p,
{
    if 0 <= p < s.len() && !whitespace_char(s[p]) && !macro_char(s[p]) {
        number_stop(s, p + 1)
    } else {
        p
    }
}

/// The digit values of ASCII digit characters.
pub open spec fn digit_values(cs: Seq<char>) -> Seq<u8> {
    cs.map_values(|c: char| (c as int - '0' as int) as u8)
}

/// The value in `radix` of the digits `ds`, most significant first; `None` where a
/// character is not a digit of `radix`.
pub open spec fn radix_value(ds: Seq<char>, radix: nat) -> Option<nat>
    decreases ds.len(),
{
    if ds.len() == 0 {
        Some(0)
    } else {
        match radix_value(ds.drop_last(), radix) {
            None => None,
            Some(v) => match digit_value(ds.last(), radix as u32) {
                None => None,
                Some(d) => Some(v * radix + (d as nat)),
            },
        }
    }
}

/// All characters of `t` are ASCII decimal digits.
pub open spec fn all_decimal(t: Seq<char>) -> bool {
    forall|i: int| 0 <= i < t.len() ==> decimal_char(#[trigger] t[i])
}

/// The magnitude written by the body of an integer (after its sign and before its `N`):
/// decimal digits not starting with `0`, `0x` and hex digits, or `0` and octal digits.
pub open spec fn integer_body(b: Seq<char>) -> Option<nat> {
    if b.len() >= 1 && '1' <= b[0] <= '9' && all_decimal(b) {
        radix_value(b, 10)
    } else if b.len() >= 3 && b[0] == '0' && (b[1] == 'x' || b[1] == 'X') {
        radix_value(b.skip(2), 16)
    } else if b.len() >= 2 && b[0] == '0' && all_decimal(b.skip(1)) {
        radix_value(b.skip(1), 8)
    } else {
        None
    }
}

/// The magnitude written in a radix of its own: one or two decimal digits (not starting
/// with `0`) naming a radix from 2 to 36, `r` or `R`, then digits of that radix.
pub open spec fn radix_body(b: Seq<char>) -> Option<nat> {
    let k: int = if b.len() >= 2 && decimal_char(b[1]) { 2 } else { 1 };
    if b.len() >= k + 2 && '1' <= b[0] <= '9' && (b[k] == 'r' || b[k] == 'R') {
        let radix = radix_value(b.take(k), 10)->0;
        if 2 <= radix <= 36 {
            radix_value(b.skip(k + 1), radix)
        } else {
            None
        }
    } else {
        None
    }
}

/// The integer of sign `negative` and magnitude `m`: a big integer where `big`, else an
/// `Int` where it fits in an `i64`, a big integer where it does not.
pub open spec fn signed_integer(negative: bool, m: nat, big: bool) -> EdnValue {
    let v: int = if negative { -m } else { m as int };
    if big {
        EdnValue::BigInt(v)
    } else if i64::MIN <= v <= i64::MAX {
        EdnValue::Int(v)
    } else {
        EdnValue::BigInt(v)
    }
}

/// The end of the run of decimal digits in `b` that starts at `i`.
pub open spec fn digits_end(b: Seq<char>, i: int) -> int
    decreases b.len() - i,
{
    if 0 <= i < b.len() && decimal_char(b[i]) {
        digits_end(b, i + 1)
    } else {
        i
    }
}

/// The parts of a decimal body `D+ ('.' D*)? ([eE] [-+]? D+)?` (without sign and `M`):
/// its digits before and after the point written together, the number of digits after
/// the point, and the exponent.
pub open spec fn decimal_parts(b: Seq<char>) -> Option<(Seq<char>, int, int)> {
    let i = digits_end(b, 0);
    let dot = i < b.len() && b[i] == '.';
    let j = if dot { digits_end(b, i + 1) } else { i };
    let mant = if dot { b.take(i) + b.subrange(i + 1, j) } else { b.take(i) };
    let fl = if dot { j - i - 1 } else { 0 };
    if i == 0 {
        None
    } else {
        match exponent_part(b, j) {
            Some(e) => Some((mant, fl, e)),
            None => None,
        }
    }
}

/// The exponent written in `b` from `j` on: none at the end, else `e` or `E`, an optional
/// sign and decimal digits up to the end.
pub open spec fn exponent_part(b: Seq<char>, j: int) -> Option<int> {
    if j == b.len() {
        Some(0)
    } else if b[j] == 'e' || b[j] == 'E' {
        let signed = j + 1 < b.len() && (b[j + 1] == '-' || b[j + 1] == '+');
        let k = if signed { j + 2 } else { j + 1 };
        let e = radix_value(b.skip(k), 10)->0 as int;
        if k < b.len() && all_decimal(b.skip(k)) {
            Some(if signed && b[j + 1] == '-' { -e } else { e })
        } else {
            None
        }
    } else {
        None
    }
}

/// The decimal `unscaled × 10^(-scale)` that the body `b` writes, with the sign
/// `negative`, where the scale fits in an `i64` (as `BigDecimal::from_str` reads it).
pub open spec fn decimal_of_body(negative: bool, b: Seq<char>) -> Option<(int, int)> {
    match decimal_parts(b) {
        None => None,
        Some((mant, fl, e)) => {
            let m = radix_value(mant, 10)->0 as int;
            let s = fl - e;
            if i64::MIN <= s <= i64::MAX {
                Some((if negative { -m } else { m }, s))
            } else {
                None
            }
        },
    }
}

/// The numerator and denominator written by a ratio body `D+ '/' D+`.
pub open spec fn ratio_body(b: Seq<char>) -> Option<(nat, nat)> {
    let i = digits_end(b, 0);
    if 1 <= i && i + 1 < b.len() && b[i] == '/' && all_decimal(b.skip(i + 1)) {
        Some((radix_value(b.take(i), 10)->0, radix_value(b.skip(i + 1), 10)->0))
    } else {
        None
    }
}

/// The length of a number's sign: one where it starts with `-` or `+`.
pub open spec fn sign_length(t: Seq<char>) -> int {
    if t.len() > 0 && (t[0] == '-' || t[0] == '+') { 1 } else { 0 }
}

/// The signed numerator and the denominator of the ratio text `[-+]?D+/D+`.
pub open spec fn ratio_terms(t: Seq<char>) -> Option<(int, int)> {
    let o = sign_length(t);
    match ratio_body(t.skip(o)) {
        Some((n, d)) => Some((if o == 1 && t[0] == '-' { -n } else { n as int }, d as int)),
        None => None,
    }
}

/// The value of a number's text that is not an integer: a float
/// `[-+]?D+('.'D*)?([eE][-+]?D+)?` (see `float_model`), the same with
/// `M` (a big decimal), or a ratio `[-+]?D+/D+` with a nonzero denominator, reduced as
/// `num` reduces it. A text of digits alone is an integer's and has no such value.
pub open spec fn fraction_value(t: Seq<char>) -> Option<EdnValue> {
    let o = sign_length(t);
    let negative = o == 1 && t[0] == '-';
    let b = t.skip(o);
    let dec = b.len() > 0 && b.last() == 'M';
    let core = if dec { b.drop_last() } else { b };
    if all_decimal(b) {
        None
    } else {
        match decimal_of_body(negative, core) {
            Some((u, s)) => if dec {
                Some(EdnValue::Decimal(u, s))
            } else {
                Some(EdnValue::Float(float_model(u, s)))
            },
            None => match ratio_terms(t) {
                Some((n, d)) => if d == 0 {
                    None
                } else {
                    Some(EdnValue::Ratio(reduced_ratio(t).0, reduced_ratio(t).1))
                },
                None => None,
            },
        }
    }
}

/// The value of a number's text, the whole text matched: an optional sign, then `0`, or
/// decimal, `0x` hex or `0` octal digits, each with an optional `N` (a big integer), or a
/// radix of its own (`2r101`). `0N` is the big integer zero. A text of no integer form is
/// a float, a big decimal or a ratio (`fraction_value`), or has no value.
pub open spec fn number_value(t: Seq<char>) -> Option<EdnValue> {
    let o: int = if t.len() > 0 && (t[0] == '-' || t[0] == '+') { 1 } else { 0 };
    let negative = o == 1 && t[0] == '-';
    let b = t.skip(o);
    if b == seq!['0'] {
        Some(EdnValue::Int(0))
    } else if b == seq!['0', 'N'] {
        Some(EdnValue::BigInt(0))
    } else {
        let big = b.len() > 0 && b.last() == 'N';
        let core = if big { b.drop_last() } else { b };
        match integer_body(core) {
            Some(m) => Some(signed_integer(negative, m, big)),
            None => match radix_body(b) {
                Some(m) => Some(signed_integer(negative, m, false)),
                None => fraction_value(t),
            },
        }
    }
}

/// A number whose first character `ch` was consumed, its text going on from `p`.
pub open spec fn number_at(s: Seq<char>, p: int, ch: char) -> Parsed<EdnValue> {
    let e = number_stop(s, p);
    let t = seq![ch] + s.subrange(p, e);
    match number_value(t) {
        Some(v) => Parsed::Done(v, e),
        None => Parsed::Fail("Invalid number: "@ + t, e),
    }
}

proof fn lemma_number_stop(s: Seq<char>, p: int)
    requires
        0 <= p <= s.len(),
    ensures
        p <= number_stop(s, p) <= s.len(),
    decreases s.len() - p,
{
    if p < s.len() && !whitespace_char(s[p]) && !macro_char(s[p]) {
        lemma_number_stop(s, p + 1);
    }
}


proof fn lemma_radix_none_extends(ds: Seq<char>, radix: nat, k: int)
    requires
        0 <= k <= ds.len(),
        radix_value(ds.take(k), radix) is None,
    ensures
        radix_value(ds, radix) is None,
    decreases ds.len() - k,
{
    if k < ds.len() {
        assert(ds.take(k + 1).drop_last() =~= ds.take(k));
        lemma_radix_none_extends(ds, radix, k + 1);
    } else {
        assert(ds.take(k) =~= ds);
    }
}

/// The magnitude of the digits `t[from..to]` in `radix`, as decimal digits most
/// significant first (see `radix_value`).
fn radix_magnitude(t: &Vec<char>, from: usize, to: usize, radix: u32) -> (r: Option<Vec<u8>>)
    requires
        from <= to <= t@.len(),
        2 <= radix <= 36,
    ensures
        match r {
            None => radix_value(t@.subrange(from as int, to as int), radix as nat) is None,
            Some(ds) => radix_value(t@.subrange(from as int, to as int), radix as nat) == Some(decimal_value(ds@))
                && (ds@ == seq![0u8] || canonical_digits(ds@)),
        },
{
    let mut le: Vec<u8> = Vec::new();
    let mut i = from;
    proof {
        assert(t@.subrange(from as int, from as int) =~= Seq::<char>::empty());
        assert(le_value(Seq::<u8>::empty()) == 0);
    }
    while i < to
        invariant
            from <= i <= to <= t@.len(),
            2 <= radix <= 36,
            all_digits(le@),
            radix_value(t@.subrange(from as int, i as int), radix as nat) == Some(le_value(le@)),
        decreases to - i,
    {
        let c = t[i];
        let ghost sub = t@.subrange(from as int, (i + 1) as int);
        assert(sub.drop_last() =~= t@.subrange(from as int, i as int));
        assert(sub.last() == c);
        match to_digit(c, radix) {
            None => {
                proof {
                    let whole = t@.subrange(from as int, to as int);
                    assert(whole.take(i + 1 - from) =~= sub);
                    lemma_radix_none_extends(whole, radix as nat, i + 1 - from);
                }
                return None;
            },
            Some(d) => {
                le = le_mul_add(&le, radix as u64, d as u64);
            },
        }
        i = i + 1;
    }
    Some(le_to_be(&le))
}

/// The magnitude `ds` as a `u64`, where it fits.
fn small_magnitude(ds: &Vec<u8>) -> (r: Option<u64>)
    requires
        all_digits(ds@),
    ensures
        match r {
            Some(m) => m == decimal_value(ds@),
            None => decimal_value(ds@) > u64::MAX,
        },
{
    let mut m: u64 = 0;
    let mut i: usize = 0;
    assert(ds@.take(0) =~= Seq::<u8>::empty());
    assert(decimal_value(Seq::<u8>::empty()) == 0);
    while i < ds.len()
        invariant
            0 <= i <= ds@.len(),
            all_digits(ds@),
            m == decimal_value(ds@.take(i as int)),
        decreases ds@.len() - i,
    {
        let d = ds[i];
        assert(ds@[i as int] < 10);
        assert(ds@.take(i + 1).drop_last() =~= ds@.take(i as int));
        if m > (u64::MAX - (d as u64)) / 10 {
            proof {
                assert(m * 10 + d > u64::MAX) by (nonlinear_arith)
                    requires
                        m > (u64::MAX - d) / 10,
                        d < 10,
                ;
                lemma_decimal_prefix_le(ds@, i + 1);
            }
            return None;
        }
        assert(m * 10 + d <= u64::MAX) by (nonlinear_arith)
            requires
                m <= (u64::MAX - d) / 10,
                d < 10,
        ;
        m = m * 10 + (d as u64);
        i = i + 1;
    }
    assert(ds@.take(i as int) =~= ds@);
    Some(m)
}

/// A numeral is at least its prefix's value.
proof fn lemma_decimal_prefix_le(ds: Seq<u8>, k: int)
    requires
        0 <= k <= ds.len(),
    ensures
        decimal_value(ds.take(k)) <= decimal_value(ds),
    decreases ds.len() - k,
{
    if k < ds.len() {
        lemma_decimal_prefix_le(ds, k + 1);
        assert(ds.take(k + 1).drop_last() =~= ds.take(k));
        assert(decimal_value(ds.take(k + 1)) == decimal_value(ds.take(k)) * 10 + ds.take(k + 1).last());
    } else {
        assert(ds.take(k) =~= ds);
    }
}

/// The integer of sign `negative` and decimal magnitude `ds` (see `signed_integer`).
fn integer_of(negative: bool, ds: Vec<u8>, big: bool) -> (r: Edn)
    requires
        ds@ == seq![0u8] || canonical_digits(ds@),
    ensures
        r.model() == signed_integer(negative, decimal_value(ds@), big),
{
    let ghost m = decimal_value(ds@);
    proof { lemma_zero_value(); }
    if !big {
        match small_magnitude(&ds) {
            Some(k) => {
                if negative && k <= 9223372036854775808u64 {
                    let n: i64 = if k == 9223372036854775808u64 { i64::MIN } else { -(k as i64) };
                    return Edn::Int(n);
                }
                if !negative && k <= 9223372036854775807u64 {
                    return Edn::Int(k as i64);
                }
            },
            None => {},
        }
    }
    let zero = ds.len() == 1 && ds[0] == 0;
    if zero {
        assert(ds@ =~= seq![0u8]);
        Edn::BigInt(BigInteger::zero())
    } else {
        proof {
            if ds@ == seq![0u8] {
                assert(ds@.len() == 1 && ds@[0] == 0);
            }
        }
        Edn::BigInt(BigInteger::from_digits(negative, ds))
    }
}

/// Whether `t[from..to]` are all ASCII decimal digits.
fn decimal_run(t: &Vec<char>, from: usize, to: usize) -> (r: bool)
    requires
        from <= to <= t@.len(),
    ensures
        r == all_decimal(t@.subrange(from as int, to as int)),
{
    let mut i = from;
    while i < to
        invariant
            from <= i <= to <= t@.len(),
            forall|j: int| from <= j < i ==> decimal_char(#[trigger] t@[j]),
        decreases to - i,
    {
        if !('0' <= t[i] && t[i] <= '9') {
            assert(t@.subrange(from as int, to as int)[i - from] == t@[i as int]);
            return false;
        }
        i = i + 1;
    }
    assert forall|j: int| 0 <= j < to - from implies decimal_char(#[trigger] t@.subrange(from as int, to as int)[j]) by {
        assert(t@.subrange(from as int, to as int)[j] == t@[from + j]);
    }
    true
}

/// The magnitude that the integer body `t[from..to]` writes (see `integer_body`).
fn body_magnitude(t: &Vec<char>, from: usize, to: usize) -> (r: Option<Vec<u8>>)
    requires
        from <= to <= t@.len(),
    ensures
        match r {
            None => integer_body(t@.subrange(from as int, to as int)) is None,
            Some(ds) => integer_body(t@.subrange(from as int, to as int)) == Some(decimal_value(ds@))
                && (ds@ == seq![0u8] || canonical_digits(ds@)),
        },
{
    let ghost core = t@.subrange(from as int, to as int);
    let len = to - from;
    if len >= 1 {
        assert(core[0] == t@[from as int]);
    }
    if len >= 2 {
        assert(core[1] == t@[from + 1]);
    }
    if len >= 1 && '1' <= t[from] && t[from] <= '9' && decimal_run(t, from, to) {
        radix_magnitude(t, from, to, 10)
    } else if len >= 3 && t[from] == '0' && (t[from + 1] == 'x' || t[from + 1] == 'X') {
        assert(core.skip(2) =~= t@.subrange(from + 2, to as int));
        radix_magnitude(t, from + 2, to, 16)
    } else if len >= 2 && t[from] == '0' && decimal_run(t, from + 1, to) {
        assert(core.skip(1) =~= t@.subrange(from + 1, to as int));
        radix_magnitude(t, from + 1, to, 8)
    } else {
        proof {
            if len >= 2 && t@[from as int] == '0' {
                assert(core.skip(1) =~= t@.subrange(from + 1, to as int));
            }
        }
        None
    }
}

/// The magnitude that `t[from..to]` writes in a radix of its own (see `radix_body`).
fn radix_body_magnitude(t: &Vec<char>, from: usize, to: usize) -> (r: Option<Vec<u8>>)
    requires
        from <= to <= t@.len(),
    ensures
        match r {
            None => radix_body(t@.subrange(from as int, to as int)) is None,
            Some(ds) => radix_body(t@.subrange(from as int, to as int)) == Some(decimal_value(ds@))
                && (ds@ == seq![0u8] || canonical_digits(ds@)),
        },
{
    let ghost b = t@.subrange(from as int, to as int);
    let len = to - from;
    if len >= 2 {
        assert(b[1] == t@[from + 1]);
    }
    let k: usize = if len >= 2 && '0' <= t[from + 1] && t[from + 1] <= '9' { 2 } else { 1 };
    if len >= k + 2 && '1' <= t[from] && t[from] <= '9' && (t[from + k] == 'r' || t[from + k] == 'R') {
        assert(b[0] == t@[from as int] && b[k as int] == t@[from + k]);
        let d0 = to_digit(t[from], 10).unwrap();
        let ghost pre = b.take(k as int);
        let ghost first = seq![b[0]];
        assert(first.drop_last() =~= Seq::<char>::empty());
        assert(radix_value(Seq::<char>::empty(), 10) == Some(0nat));
        assert(radix_value(first, 10) == Some(d0 as nat));
        let mut radix: u32 = d0;
        if k == 2 {
            let d1 = to_digit(t[from + 1], 10).unwrap();
            assert(pre.drop_last() =~= first);
            assert(pre.last() == t@[from + 1]);
            radix = d0 * 10 + d1;
            assert(radix_value(pre, 10) == Some(radix as nat));
        } else {
            assert(pre =~= first);
        }
        if 2 <= radix && radix <= 36 {
            assert(b.skip(k + 1) =~= t@.subrange(from + k + 1, to as int));
            return radix_magnitude(t, from + k + 1, to, radix);
        }
        return None;
    }
    None
}


/// The magnitude `ds` as a `u128`, where it fits.
fn wide_magnitude(ds: &Vec<u8>) -> (r: Option<u128>)
    requires
        all_digits(ds@),
    ensures
        match r {
            Some(m) => m == decimal_value(ds@),
            None => decimal_value(ds@) > u128::MAX,
        },
{
    let mut m: u128 = 0;
    let mut i: usize = 0;
    assert(ds@.take(0) =~= Seq::<u8>::empty());
    assert(decimal_value(Seq::<u8>::empty()) == 0);
    while i < ds.len()
        invariant
            0 <= i <= ds@.len(),
            all_digits(ds@),
            m == decimal_value(ds@.take(i as int)),
        decreases ds@.len() - i,
    {
        let d = ds[i];
        assert(ds@[i as int] < 10);
        assert(ds@.take(i + 1).drop_last() =~= ds@.take(i as int));
        if m > (u128::MAX - (d as u128)) / 10 {
            proof {
                assert(m * 10 + d > u128::MAX) by (nonlinear_arith)
                    requires
                        m > (u128::MAX - d) / 10,
                        d < 10,
                ;
                lemma_decimal_prefix_le(ds@, i + 1);
            }
            return None;
        }
        assert(m * 10 + d <= u128::MAX) by (nonlinear_arith)
            requires
                m <= (u128::MAX - d) / 10,
                d < 10,
        ;
        m = m * 10 + (d as u128);
        i = i + 1;
    }
    assert(ds@.take(i as int) =~= ds@);
    Some(m)
}

/// The end of the run of decimal digits of `t[from..to]` that starts at `i`.
fn digit_run_end(t: &Vec<char>, from: usize, to: usize, i: usize) -> (r: usize)
    requires
        from <= i <= to <= t@.len(),
    ensures
        i <= r <= to,
        r - from == digits_end(t@.subrange(from as int, to as int), i - from),
        forall|j: int| i <= j < r ==> decimal_char(#[trigger] t@[j]),
{
    let ghost b = t@.subrange(from as int, to as int);
    let mut k = i;
    while k < to && '0' <= t[k] && t[k] <= '9'
        invariant
            from <= i <= k <= to <= t@.len(),
            b == t@.subrange(from as int, to as int),
            digits_end(b, k - from) == digits_end(b, i - from),
            forall|j: int| i <= j < k ==> decimal_char(#[trigger] t@[j]),
        decreases to - k,
    {
        assert(b[k - from] == t@[k as int]);
        k = k + 1;
    }
    proof {
        if k < to {
            assert(b[k - from] == t@[k as int]);
        }
    }
    k
}

/// The characters `t[from..to]` followed by `t[from2..to2]`.
fn two_runs(t: &Vec<char>, from: usize, to: usize, from2: usize, to2: usize) -> (r: Vec<char>)
    requires
        from <= to <= t@.len(),
        from2 <= to2 <= t@.len(),
    ensures
        r@ == t@.subrange(from as int, to as int) + t@.subrange(from2 as int, to2 as int),
{
    let mut out: Vec<char> = Vec::new();
    let mut i = from;
    while i < to
        invariant
            from <= i <= to <= t@.len(),
            out@ == t@.subrange(from as int, i as int),
        decreases to - i,
    {
        out.push(t[i]);
        assert(t@.subrange(from as int, i + 1) =~= t@.subrange(from as int, i as int).push(t@[i as int]));
        i = i + 1;
    }
    let mut j = from2;
    while j < to2
        invariant
            from2 <= j <= to2 <= t@.len(),
            out@ == t@.subrange(from as int, to as int) + t@.subrange(from2 as int, j as int),
        decreases to2 - j,
    {
        out.push(t[j]);
        assert(t@.subrange(from2 as int, j + 1) =~= t@.subrange(from2 as int, j as int).push(t@[j as int]));
        j = j + 1;
    }
    out
}

/// The integer of sign `negative` and canonical magnitude `ds`.
fn signed_big(negative: bool, ds: Vec<u8>) -> (r: BigInteger)
    requires
        ds@ == seq![0u8] || canonical_digits(ds@),
    ensures
        r.value() == (if negative { -(decimal_value(ds@) as int) } else { decimal_value(ds@) as int }),
{
    proof { lemma_zero_value(); }
    if ds.len() == 1 && ds[0] == 0 {
        assert(ds@ =~= seq![0u8]);
        BigInteger::zero()
    } else {
        proof {
            if ds@ == seq![0u8] {
                assert(ds@.len() == 1 && ds@[0] == 0);
            }
        }
        BigInteger::from_digits(negative, ds)
    }
}

/// The exponent of the body `t[from..to]` written from `j` on (see `exponent_part`), where
/// it is at most `2^65` in size.
fn exponent_of(t: &Vec<char>, from: usize, to: usize, j: usize) -> (r: Option<i128>)
    requires
        from <= j <= to <= t@.len(),
    ensures
        match r {
            Some(e) => exponent_part(t@.subrange(from as int, to as int), j - from) == Some(e as int)
                && -36893488147419103232 <= e <= 36893488147419103232,
            None => match exponent_part(t@.subrange(from as int, to as int), j - from) {
                None => true,
                Some(x) => x < -36893488147419103232 || x > 36893488147419103232,
            },
        },
{
    let ghost b = t@.subrange(from as int, to as int);
    if j == to {
        return Some(0);
    }
    assert(b[j - from] == t@[j as int]);
    if !(t[j] == 'e' || t[j] == 'E') {
        return None;
    }
    let signed = j + 1 < to && (t[j + 1] == '-' || t[j + 1] == '+');
    proof {
        if j + 1 < to {
            assert(b[j + 1 - from] == t@[j + 1]);
        }
    }
    let k = if signed { j + 2 } else { j + 1 };
    assert(b.skip(k - from) =~= t@.subrange(k as int, to as int));
    if !(k < to && decimal_run(t, k, to)) {
        return None;
    }
    let eds = match radix_magnitude(t, k, to, 10) {
        Some(ds) => ds,
        None => {
            proof { lemma_radix_all_decimal(t@.subrange(k as int, to as int)); }
            return None;
        },
    };
    proof {
        lemma_zero_value();
    }
    let minus = signed && t[j + 1] == '-';
    match wide_magnitude(&eds) {
        None => None,
        Some(v) => {
            if v > 36893488147419103232u128 {
                return None;
            }
            Some(if minus { -(v as i128) } else { v as i128 })
        },
    }
}

/// The decimal that the body `t[from..to]` writes (see `decimal_of_body`).
fn decimal_number(t: &Vec<char>, from: usize, to: usize, negative: bool) -> (r: Option<(BigInteger, i64)>)
    requires
        from <= to <= t@.len(),
    ensures
        match r {
            Some((u, s)) => decimal_of_body(negative, t@.subrange(from as int, to as int)) == Some((u.value(), s as int)),
            None => decimal_of_body(negative, t@.subrange(from as int, to as int)) is None,
        },
{
    let ghost b = t@.subrange(from as int, to as int);
    let i = digit_run_end(t, from, to, from);
    if i == from {
        return None;
    }
    let dot = i < to && t[i] == '.';
    proof {
        if i < to {
            assert(b[i - from] == t@[i as int]);
        }
    }
    let j = if dot { digit_run_end(t, from, to, i + 1) } else { i };
    let fl: usize = if dot { j - i - 1 } else { 0 };
    let ghost mant = if dot {
        b.take(i - from) + b.subrange(i + 1 - from, j - from)
    } else {
        b.take(i - from)
    };
    let e = match exponent_of(t, from, to, j) {
        Some(e) => e,
        None => {
            return None;
        },
    };
    let sc: i128 = fl as i128 - e;
    if sc < -9223372036854775808i128 || sc > 9223372036854775807i128 {
        return None;
    }
    let mv = if dot { two_runs(t, from, i, i + 1, j) } else { two_runs(t, from, i, i, i) };
    proof {
        assert(b.take(i - from) =~= t@.subrange(from as int, i as int));
        if dot {
            assert(b.subrange(i + 1 - from, j - from) =~= t@.subrange(i + 1, j as int));
        }
        assert(t@.subrange(i as int, i as int) =~= Seq::<char>::empty());
        assert(mv@ =~= mant);
        assert forall|x: int| 0 <= x < mv@.len() implies decimal_char(#[trigger] mv@[x]) by {
            if x < i - from {
                assert(mv@[x] == t@[from + x]);
            } else {
                assert(mv@[x] == t@[i + 1 + (x - (i - from))]);
            }
        }
        lemma_radix_all_decimal(mv@);
        assert(mv@.subrange(0, mv@.len() as int) =~= mv@);
    }
    let ds = match radix_magnitude(&mv, 0, mv.len(), 10) {
        Some(ds) => ds,
        None => {
            return None;
        },
    };
    let u = signed_big(negative, ds);
    Some((u, sc as i64))
}

/// The value of all-decimal digits in radix 10 is some number.
proof fn lemma_radix_all_decimal(cs: Seq<char>)
    requires
        all_decimal(cs),
    ensures
        radix_value(cs, 10) is Some,
    decreases cs.len(),
{
    if cs.len() > 0 {
        let f = cs.drop_last();
        assert forall|i: int| 0 <= i < f.len() implies decimal_char(#[trigger] f[i]) by {
            assert(f[i] == cs[i]);
        }
        lemma_radix_all_decimal(f);
        assert(decimal_char(cs[cs.len() - 1]));
    }
}

/// The ratio that `t` writes after a sign of length `o` (see `fraction_value`).
fn ratio_of(t: &Vec<char>, o: usize) -> (r: Option<Edn>)
    requires
        o as int == sign_length(t@),
    ensures
        match r {
            Some(e) => ratio_terms(t@) matches Some((n, d)) && d != 0
                && e.model() == EdnValue::Ratio(reduced_ratio(t@).0, reduced_ratio(t@).1),
            None => ratio_terms(t@) matches Some((n, d)) ==> d == 0,
        },
{
    let n = t.len();
    let ghost b = t@.subrange(o as int, n as int);
    assert(b =~= t@.skip(o as int));
    let i = digit_run_end(t, o, n, o);
    if !(i > o && i < n && t[i] == '/' && i + 1 < n) {
        proof {
            if i + 1 < n {
                assert(b[i - o] == t@[i as int]);
            }
        }
        return None;
    }
    assert(b[i - o] == t@[i as int]);
    assert(b.skip(i + 1 - o) =~= t@.subrange(i + 1, n as int));
    if !decimal_run(t, i + 1, n) {
        return None;
    }
    let dd = match radix_magnitude(t, i + 1, n, 10) {
        Some(ds) => ds,
        None => {
            proof { lemma_radix_all_decimal(t@.subrange(i + 1, n as int)); }
            return None;
        },
    };
    proof { lemma_zero_value(); }
    if dd.len() == 1 && dd[0] == 0 {
        assert(dd@ =~= seq![0u8]);
        return None;
    }
    proof {
        if dd@ == seq![0u8] {
            assert(dd@.len() == 1 && dd@[0] == 0);
        }
        crate::bigint::lemma_canonical_text(dd@);
        assert(b.take(i - o) =~= t@.subrange(o as int, i as int));
        assert forall|x: int| 0 <= x < b.take(i - o).len() implies decimal_char(#[trigger] b.take(i - o)[x]) by {
            assert(b.take(i - o)[x] == t@[o + x]);
        }
        lemma_radix_all_decimal(b.take(i - o));
    }
    let text = string_of(t);
    let (a, c) = reduce_ratio(text.as_str());
    let p = integer_of_text(&a);
    let q = integer_of_text(&c);
    proof {
        crate::numeric::lemma_decimal_integer(reduced_ratio(t@).0);
        crate::numeric::lemma_decimal_integer(reduced_ratio(t@).1);
    }
    Some(Edn::BigRational(Ratio::new(p, q)))
}

/// The value of the number text `t` that is not an integer (see `fraction_value`).
fn fraction_of(t: &Vec<char>) -> (r: Option<Edn>)
    ensures
        match r {
            Some(e) => fraction_value(t@) == Some(e.model()),
            None => fraction_value(t@) is None,
        },
{
    let n = t.len();
    let o: usize = if n > 0 && (t[0] == '-' || t[0] == '+') { 1 } else { 0 };
    let negative = o == 1 && t[0] == '-';
    let ghost b = t@.skip(o as int);
    assert(b =~= t@.subrange(o as int, n as int));
    if decimal_run(t, o, n) {
        return None;
    }
    let dec = n > o && t[n - 1] == 'M';
    let end = if dec { n - 1 } else { n };
    proof {
        if dec {
            assert(b.drop_last() =~= t@.subrange(o as int, end as int));
        }
    }
    match decimal_number(t, o, end, negative) {
        Some((u, s)) => {
            if dec {
                Some(Edn::BigDecimal(Decimal::new(u, s)))
            } else {
                Some(Edn::Float(u.float_of(s)))
            }
        },
        None => ratio_of(t, o),
    }
}

/// The value of the number text `t` (see `number_value`).
pub fn match_number(t: &Vec<char>) -> (r: Option<Edn>)
    ensures
        match r {
            Some(e) => number_value(t@) == Some(e.model()),
            None => number_value(t@) is None,
        },
{
    let n = t.len();
    let o: usize = if n > 0 && (t[0] == '-' || t[0] == '+') { 1 } else { 0 };
    let negative = o == 1 && t[0] == '-';
    let ghost b = t@.skip(o as int);
    assert(b =~= t@.subrange(o as int, n as int));
    if n == o + 1 && t[o] == '0' {
        assert(b =~= seq!['0']);
        return Some(Edn::Int(0));
    }
    if n == o + 2 && t[o] == '0' && t[o + 1] == 'N' {
        assert(b =~= seq!['0', 'N']);
        return Some(Edn::BigInt(BigInteger::zero()));
    }
    proof {
        if b == seq!['0'] { assert(b.len() == 1 && b[0] == '0'); }
        if b == seq!['0', 'N'] { assert(b.len() == 2 && b[0] == '0' && b[1] == 'N'); }
    }
    let big = n > o && t[n - 1] == 'N';
    let end = if big { n - 1 } else { n };
    let ghost core = if big { b.drop_last() } else { b };
    assert(core =~= t@.subrange(o as int, end as int));
    match body_magnitude(t, o, end) {
        Some(ds) => Some(integer_of(negative, ds, big)),
        None => match radix_body_magnitude(t, o, n) {
            Some(ds) => Some(integer_of(negative, ds, false)),
            None => fraction_of(t),
        },
    }
}

/// Reads a number whose first character `ch` was consumed, its text going on from `pos`.
pub fn read_number(s: &Vec<char>, pos: usize, ch: char) -> (r: Result<(Edn, usize), ReadFailure>)
    requires
        pos <= s@.len(),
    ensures
        agrees(r, number_at(s@, pos as int, ch), |e: Edn| e.model()),
        r matches Ok((_, q)) ==> pos <= q <= s@.len(),
        r matches Err(ReadFailure::Error(_, q)) ==> q <= s@.len(),
{
    let mut text: Vec<char> = Vec::new();
    text.push(ch);
    let mut p = pos;
    proof { lemma_number_stop(s@, pos as int); }
    while p < s.len() && !is_whitespace(s[p]) && !is_macro(s[p])
        invariant
            pos <= p <= s@.len(),
            number_stop(s@, p as int) == number_stop(s@, pos as int),
            text@ == seq![ch] + s@.subrange(pos as int, p as int),
        decreases s@.len() - p,
    {
        text.push(s[p]);
        assert(s@.subrange(pos as int, p + 1) =~= s@.subrange(pos as int, p as int).push(s@[p as int]));
        p = p + 1;
    }
    match match_number(&text) {
        Some(e) => Ok((e, p)),
        None => {
            let m = message("Invalid number: ", &text, 0, text.len());
            assert(text@.subrange(0, text@.len() as int) =~= text@);
            Err(ReadFailure::Error(m, p))
        },
    }
}

} // verus!
