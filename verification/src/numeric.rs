//! Big decimals and ratios: the calls into `bigdecimal` and `num` that print a decimal and
//! reduce a ratio, and the reading back of the integers they write.
use vstd::prelude::*;
use crate::bigint::{BigInteger, decimal_value, canonical_digits, lemma_zero_value};
use crate::decimal::{int_text, nat_text};
use crate::number::{radix_value, digit_values, all_decimal, ratio_terms};
use crate::round_trip::{lemma_nat_text_digits, lemma_radix_decimal};
use crate::text::chars_of;
use vstd::string::StringExecFns;

verus! {

/// What `BigDecimal`'s `Display` writes for `unscaled × 10^(-scale)`, the unscaled
/// integer given by its decimal text.
pub uninterp spec fn decimal_display(unscaled: Seq<char>, scale: int) -> Seq<char>;

/// What `BigDecimal`'s `Debug` writes for `unscaled × 10^(-scale)`.
pub uninterp spec fn decimal_debug(unscaled: Seq<char>, scale: int) -> Seq<char>;

/// The numerator and denominator of `BigRational::from_str` on the text of a ratio.
pub uninterp spec fn reduced_ratio(text: Seq<char>) -> (int, int);

/// `p` and `q` have no common divisor above one.
pub open spec fn coprime(p: int, q: int) -> bool {
    forall|k: int| k > 1 ==> !(#[trigger] (p % k) == 0 && q % k == 0)
}

/// `BigDecimal::new(unscaled, scale)` printed with `Display` (`to_string`). The text
/// depends on exponent thresholds fixed when `bigdecimal` is built; it is named, not stated.
#[verifier::external_body]
pub(crate) fn decimal_text(unscaled: &str, scale: i64) -> (r: String)
    requires
        unscaled@ == int_text(decimal_integer(unscaled@)),
    ensures
        r@ == decimal_display(unscaled@, scale as int),
{
    let n: num::BigInt = unscaled.parse().unwrap();
    bigdecimal::BigDecimal::new(n, scale).to_string()
}

/// `BigDecimal::new(unscaled, scale)` formatted with `Debug`; the text (sign, scale and
/// 64-bit digits of the magnitude) is named, not stated.
#[verifier::external_body]
pub(crate) fn decimal_debug_text(unscaled: &str, scale: i64) -> (r: String)
    requires
        unscaled@ == int_text(decimal_integer(unscaled@)),
    ensures
        r@ == decimal_debug(unscaled@, scale as int),
{
    let n: num::BigInt = unscaled.parse().unwrap();
    format!("{:?}", bigdecimal::BigDecimal::new(n, scale))
}

/// `BigRational::from_str` on the text of a ratio with a nonzero denominator, its
/// numerator and denominator printed with `Display`. The source (`Ratio::new`, `reduce`)
/// divides both terms by their greatest common divisor and makes the denominator
/// positive: the terms are in lowest terms, the denominator is positive and the value is
/// the written one. Which pair that is, is named.
#[verifier::external_body]
pub(crate) fn reduce_ratio(text: &str) -> (r: (String, String))
    requires
        ratio_terms(text@) is Some,
        (ratio_terms(text@)->0).1 != 0,
    ensures
        r.0@ == int_text(reduced_ratio(text@).0),
        r.1@ == int_text(reduced_ratio(text@).1),
        r.1@ == int_text(reduced_ratio(text@).1) ==> reduced_ratio(text@).1 > 0,
        r.0@ == int_text(reduced_ratio(text@).0) ==> reduced_ratio(text@).0 * (ratio_terms(text@)->0).1
            == (ratio_terms(text@)->0).0 * reduced_ratio(text@).1,
        r.0@ == int_text(reduced_ratio(text@).0) ==> coprime(reduced_ratio(text@).0, reduced_ratio(text@).1),
{
    let q: num::BigRational = text.parse().unwrap();
    (q.numer().to_string(), q.denom().to_string())
}

/// The integer whose decimal text (`int_text`) is `s`, where it is one.
pub open spec fn decimal_integer(s: Seq<char>) -> int {
    if s.len() > 0 && s[0] == '-' {
        -(radix_value(s.skip(1), 10)->0 as int)
    } else {
        radix_value(s, 10)->0 as int
    }
}

/// The decimal text of an integer reads back as that integer.
pub proof fn lemma_decimal_integer(n: int)
    ensures
        decimal_integer(int_text(n)) == n,
{
    let m: nat = if n < 0 { (-n) as nat } else { n as nat };
    lemma_nat_text_digits(m);
    let d = nat_text(m);
    assert(all_decimal(d));
    lemma_radix_decimal(d);
    if n < 0 {
        assert(int_text(n).skip(1) =~= d);
    } else {
        assert(d[0] != '-') by { assert(crate::syntax::decimal_char(d[0])); }
    }
}

/// The integer that the decimal text `s` writes.
pub(crate) fn integer_of_text(s: &String) -> (r: BigInteger)
    requires
        exists|n: int| s@ == int_text(n),
    ensures
        r.value() == decimal_integer(s@),
        s@ == int_text(r.value()),
{
    let ghost n = choose|n: int| s@ == int_text(n);
    proof { lemma_decimal_integer(n); }
    let cs = chars_of(s.as_str());
    let negative = cs.len() > 0 && cs[0] == '-';
    let ghost m: nat = if n < 0 { (-n) as nat } else { n as nat };
    proof {
        lemma_nat_text_digits(m);
        if n < 0 {
            assert(cs@ == seq!['-'] + nat_text(m));
        } else {
            assert(cs@ == nat_text(m));
            assert(crate::syntax::decimal_char(cs@[0]));
        }
    }
    let from: usize = if negative { 1 } else { 0 };
    let mut ds: Vec<u8> = Vec::new();
    let mut i = from;
    let ghost d = nat_text(m);
    assert(cs@.subrange(from as int, cs@.len() as int) =~= d);
    assert(d.take(0) =~= Seq::<char>::empty());
    assert(decimal_value(Seq::<u8>::empty()) == 0);
    while i < cs.len()
        invariant
            from <= i <= cs@.len(),
            cs@.subrange(from as int, cs@.len() as int) == d,
            all_decimal(d),
            ds@ == digit_values(d.take(i - from)),
        decreases cs@.len() - i,
    {
        let c = cs[i];
        assert(c == d[i - from]);
        assert(crate::syntax::decimal_char(d[i - from]));
        let v: u8 = ((c as u32) - ('0' as u32)) as u8;
        ds.push(v);
        assert(d.take(i + 1 - from) =~= d.take(i - from).push(c));
        assert(digit_values(d.take(i + 1 - from)) =~= digit_values(d.take(i - from)).push(v));
        i = i + 1;
    }
    assert(d.take(i - from) =~= d);
    proof {
        assert forall|j: int| 0 <= j < ds@.len() implies #[trigger] ds@[j] < 10 by {
            assert(crate::syntax::decimal_char(d[j]));
        }
    }
    if ds.len() == 1 && ds[0] == 0 {
        proof {
            lemma_zero_value();
            assert(ds@ =~= seq![0u8]);
            assert(m == 0);
        }
        let z = BigInteger::zero();
        proof {
            assert(n == 0);
        }
        return z;
    }
    proof {
        if m == 0 {
            assert(d == seq!['0']);
            assert(ds@ =~= seq![0u8]);
        }
        assert(d[0] != '0');
        assert(ds@[0] != 0);
    }
    let r = BigInteger::from_digits(negative, ds);
    proof {
        assert(decimal_value(ds@) == m);
        if negative {
            assert(n < 0) by {
                if n >= 0 { assert(cs@[0] == d[0]); assert(crate::syntax::decimal_char(d[0])); }
            }
        }
    }
    r
}

} // verus!
