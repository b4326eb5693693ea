//! Integers outside the range of `i64`, kept as a sign and decimal digits.
use vstd::prelude::*;
use crate::decimal::{digit_char, nat_text, int_text};
use crate::edn::{Decimal, FloatModel, FloatNumber, FloatValue};

verus! {

/// The value of a sequence of decimal digits, most significant first.
pub open spec fn decimal_value(ds: Seq<u8>) -> nat
    decreases ds.len(),
{
    if ds.len() == 0 {
        0
    } else {
        decimal_value(ds.drop_last()) * 10 + ds.last() as nat
    }
}

/// Every element is a decimal digit.
pub open spec fn all_digits(ds: Seq<u8>) -> bool {
    forall|i: int| 0 <= i < ds.len() ==> #[trigger] ds[i] < 10
}

/// An integer written with the `N` suffix or outside the range of `i64`:
/// a sign and the decimal digits of its magnitude, most significant first (zero is the
/// single digit `0`, without the sign).
#[derive(Debug, PartialEq, Eq, Hash)]
pub struct BigInteger {
    negative: bool,
    digits: Vec<u8>,
}

impl BigInteger {
    #[verifier::type_invariant]
    spec fn wf(&self) -> bool {
        ||| canonical_digits(self.digits@)
        ||| (self.digits@ == seq![0u8] && !self.negative)
    }

    /// The integer's value.
    pub closed spec fn value(&self) -> int {
        if self.negative {
            -(decimal_value(self.digits@) as int)
        } else {
            decimal_value(self.digits@) as int
        }
    }
}


/// The digits are a canonical decimal numeral: at least one, all decimal, the first not zero.
pub open spec fn canonical_digits(ds: Seq<u8>) -> bool {
    &&& ds.len() > 0
    &&& ds[0] != 0
    &&& all_digits(ds)
}

/// The single digit `0` has the value zero.
pub proof fn lemma_zero_value()
    ensures
        decimal_value(seq![0u8]) == 0,
        all_digits(seq![0u8]),
{
    assert(seq![0u8].drop_last() =~= Seq::<u8>::empty());
    assert(decimal_value(Seq::<u8>::empty()) == 0);
}

/// The characters of a sequence of decimal digits.
pub open spec fn digit_chars(ds: Seq<u8>) -> Seq<char> {
    ds.map_values(|d: u8| digit_char(d as int))
}

/// A canonical numeral is the decimal text of its value.
pub proof fn lemma_canonical_text(ds: Seq<u8>)
    requires
        canonical_digits(ds),
    ensures
        decimal_value(ds) >= 1,
        nat_text(decimal_value(ds)) == digit_chars(ds),
    decreases ds.len(),
{
    let n = decimal_value(ds);
    if ds.len() == 1 {
        assert(ds.drop_last() =~= Seq::<u8>::empty());
        assert(digit_chars(ds) =~= seq![digit_char(ds[0] as int)]);
    } else {
        let front = ds.drop_last();
        assert(front[0] == ds[0]);
        assert forall|i: int| 0 <= i < front.len() implies #[trigger] front[i] < 10 by {
            assert(front[i] == ds[i]);
        }
        lemma_canonical_text(front);
        assert(ds.last() < 10) by {
            assert(ds[ds.len() - 1] < 10);
        }
        assert(n / 10 == decimal_value(front));
        assert(n % 10 == ds.last() as nat);
        assert(digit_chars(ds) =~= digit_chars(front).push(digit_char(ds.last() as int)));
    }
}

impl BigInteger {
    /// The integer with the given sign and canonical decimal digits.
    pub fn from_digits(negative: bool, digits: Vec<u8>) -> (r: BigInteger)
        requires
            canonical_digits(digits@),
        ensures
            r.value() == (if negative {
                -(decimal_value(digits@) as int)
            } else {
                decimal_value(digits@) as int
            }),
    {
        BigInteger { negative, digits }
    }

    /// The integer zero.
    pub fn zero() -> (r: BigInteger)
        ensures
            r.value() == 0,
    {
        let mut digits: Vec<u8> = Vec::new();
        digits.push(0);
        assert(digits@ =~= seq![0u8]);
        proof { lemma_zero_value(); }
        BigInteger { negative: false, digits }
    }

    /// The integer one.
    pub fn one() -> (r: BigInteger)
        ensures
            r.value() == 1,
    {
        let mut digits: Vec<u8> = Vec::new();
        digits.push(1);
        assert(digits@ =~= seq![1u8]);
        assert(digits@.drop_last() =~= Seq::<u8>::empty());
        assert(decimal_value(Seq::<u8>::empty()) == 0);
        BigInteger { negative: false, digits }
    }

    /// Appends the decimal text of the value to `out`.
    pub fn push_text(&self, out: &mut String)
        ensures
            final(out)@ == old(out)@ + int_text(self.value()),
    {
        proof {
            use_type_invariant(self);
            if self.digits@ == seq![0u8] {
                lemma_zero_value();
                assert(all_digits(self.digits@));
                assert(digit_chars(self.digits@) =~= seq![digit_char(0)]);
                assert(nat_text(0) == seq![digit_char(0)]);
            } else {
                lemma_canonical_text(self.digits@);
            }
        }
        let ghost start = out@;
        if self.negative {
            out.push('-');
        }
        let ghost signed = out@;
        let mut i: usize = 0;
        while i < self.digits.len()
            invariant
                0 <= i <= self.digits@.len(),
                all_digits(self.digits@),
                out@ == signed + digit_chars(self.digits@).take(i as int),
            decreases self.digits@.len() - i,
        {
            let d = self.digits[i];
            assert(self.digits@[i as int] < 10);
            out.push(char_of_digit(d));
            assert(digit_chars(self.digits@).take(i + 1) =~= digit_chars(self.digits@).take(i as int).push(digit_char(d as int)));
            i = i + 1;
        }
        assert(digit_chars(self.digits@).take(i as int) =~= digit_chars(self.digits@));
        proof {
            if self.negative {
                assert(-(-(decimal_value(self.digits@) as int)) == decimal_value(self.digits@) as int);
                assert(out@ =~= start + int_text(self.value()));
            } else {
                assert(out@ =~= start + int_text(self.value()));
            }
        }
    }
}

fn char_of_digit(d: u8) -> (c: char)
    requires
        d < 10,
    ensures
        c == digit_char(d as int),
{
    let buf: u64 = d as u64;
    if buf == 0 { '0' }
    else if buf == 1 { '1' }
    else if buf == 2 { '2' }
    else if buf == 3 { '3' }
    else if buf == 4 { '4' }
    else if buf == 5 { '5' }
    else if buf == 6 { '6' }
    else if buf == 7 { '7' }
    else if buf == 8 { '8' }
    else { '9' }
}


/// `10` to the power `n`.
pub open spec fn pow10(n: nat) -> nat
    decreases n,
{
    if n == 0 { 1 } else { 10 * pow10((n - 1) as nat) }
}

/// The value of two numerals written one after the other.
pub proof fn lemma_decimal_concat(x: Seq<u8>, y: Seq<u8>)
    ensures
        decimal_value(x + y) == decimal_value(x) * pow10(y.len()) + decimal_value(y),
    decreases y.len(),
{
    if y.len() == 0 {
        assert(x + y =~= x);
        assert(decimal_value(y) == 0);
        assert(pow10(0) == 1);
    } else {
        lemma_decimal_concat(x, y.drop_last());
        assert((x + y).drop_last() =~= x + y.drop_last());
        assert((x + y).last() == y.last());
        let a = decimal_value(x);
        let b = decimal_value(y.drop_last());
        let p = pow10(y.drop_last().len());
        assert(pow10(y.len()) == 10 * p);
        let l = y.last() as nat;
        assert(decimal_value(x + y) == decimal_value((x + y).drop_last()) * 10 + l);
        assert(decimal_value(y) == b * 10 + l);
        assert(decimal_value(x + y.drop_last()) == a * p + b);
        assert((a * p + b) * 10 + l == a * (10 * p) + (b * 10 + l)) by (nonlinear_arith);
        assert(decimal_value(x + y) == a * (10 * p) + decimal_value(y));
    }
}

/// A numeral of `n` digits is below `10^n`; a canonical one is at least `10^(n-1)`.
pub proof fn lemma_decimal_bounds(ds: Seq<u8>)
    requires
        all_digits(ds),
    ensures
        decimal_value(ds) < pow10(ds.len()),
        ds.len() > 0 && ds[0] != 0 ==> decimal_value(ds) >= pow10((ds.len() - 1) as nat),
    decreases ds.len(),
{
    if ds.len() > 0 {
        let front = ds.drop_last();
        assert forall|i: int| 0 <= i < front.len() implies #[trigger] front[i] < 10 by {
            assert(front[i] == ds[i]);
        }
        lemma_decimal_bounds(front);
        let v = decimal_value(front);
        let p = pow10(front.len());
        assert(ds.last() < 10) by { assert(ds[ds.len() - 1] < 10); }
        assert(v * 10 + (ds.last() as nat) < p * 10) by (nonlinear_arith)
            requires v < p, ds.last() < 10;
        if ds[0] != 0 {
            if front.len() == 0 {
                assert(ds.last() == ds[0]);
            } else {
                assert(front[0] == ds[0]);
                let q = pow10((front.len() - 1) as nat);
                assert(p == 10 * q);
                assert(v * 10 + (ds.last() as nat) >= q * 10) by (nonlinear_arith)
                    requires v >= q;
            }
        }
    }
}

/// Numerals of the same length compare as their first differing digits do.
pub proof fn lemma_decimal_lex(a: Seq<u8>, b: Seq<u8>, i: int)
    requires
        a.len() == b.len(),
        0 <= i < a.len(),
        a.take(i) == b.take(i),
        a[i] < b[i],
        all_digits(a),
        all_digits(b),
    ensures
        decimal_value(a) < decimal_value(b),
{
    let m = (a.len() - i - 1) as nat;
    let ra = a.skip(i + 1);
    let rb = b.skip(i + 1);
    assert(a =~= a.take(i + 1) + ra);
    assert(b =~= b.take(i + 1) + rb);
    lemma_decimal_concat(a.take(i + 1), ra);
    lemma_decimal_concat(b.take(i + 1), rb);
    assert(a.take(i + 1).drop_last() =~= a.take(i));
    assert(b.take(i + 1).drop_last() =~= b.take(i));
    assert forall|j: int| 0 <= j < ra.len() implies #[trigger] ra[j] < 10 by {
        assert(ra[j] == a[i + 1 + j]);
    }
    lemma_decimal_bounds(ra);
    let va = decimal_value(a.take(i + 1));
    let vb = decimal_value(b.take(i + 1));
    assert(va < vb);
    let p = pow10(m);
    let x = decimal_value(ra);
    let y = decimal_value(rb);
    assert(va * p + x < vb * p + y) by (nonlinear_arith)
        requires va < vb, x < p, y >= 0;
}

/// The sign of the difference of two canonical numerals' values: by length first,
/// then by the first differing digit.
fn compare_digits(a: &Vec<u8>, b: &Vec<u8>) -> (r: i8)
    requires
        canonical_digits(a@),
        canonical_digits(b@),
    ensures
        r == (if decimal_value(a@) < decimal_value(b@) {
            -1int
        } else if decimal_value(a@) == decimal_value(b@) {
            0int
        } else {
            1int
        }),
{
    proof {
        lemma_decimal_bounds(a@);
        lemma_decimal_bounds(b@);
    }
    if a.len() != b.len() {
        proof {
            if a@.len() < b@.len() {
                lemma_pow10_mono(a@.len(), (b@.len() - 1) as nat);
            } else {
                lemma_pow10_mono(b@.len(), (a@.len() - 1) as nat);
            }
        }
        return if a.len() < b.len() { -1 } else { 1 };
    }
    let mut i: usize = 0;
    while i < a.len()
        invariant
            a@.len() == b@.len(),
            0 <= i <= a@.len(),
            a@.take(i as int) == b@.take(i as int),
            canonical_digits(a@),
            canonical_digits(b@),
        decreases a@.len() - i,
    {
        if a[i] != b[i] {
            proof {
                if a@[i as int] < b@[i as int] {
                    lemma_decimal_lex(a@, b@, i as int);
                } else {
                    lemma_decimal_lex(b@, a@, i as int);
                }
            }
            return if a[i] < b[i] { -1 } else { 1 };
        }
        assert(a@.take(i + 1) =~= a@.take(i as int).push(a@[i as int]));
        assert(b@.take(i + 1) =~= b@.take(i as int).push(b@[i as int]));
        i = i + 1;
    }
    assert(a@ =~= a@.take(i as int));
    assert(b@ =~= b@.take(i as int));
    0
}

proof fn lemma_pow10_mono(a: nat, b: nat)
    requires
        a <= b,
    ensures
        pow10(a) <= pow10(b),
    decreases b,
{
    if a < b {
        lemma_pow10_mono(a, (b - 1) as nat);
    }
}

impl BigInteger {
    /// The sign of `self - other`: `-1`, `0` or `1`.
    pub fn compare(&self, other: &BigInteger) -> (r: i8)
        ensures
            r == (if self.value() < other.value() {
                -1int
            } else if self.value() == other.value() {
                0int
            } else {
                1int
            }),
    {
        proof {
            use_type_invariant(self);
            use_type_invariant(other);
            lemma_zero_value();
            if self.digits@ != seq![0u8] {
                lemma_canonical_text(self.digits@);
            }
            if other.digits@ != seq![0u8] {
                lemma_canonical_text(other.digits@);
            }
        }
        let a_zero = self.digits.len() == 1 && self.digits[0] == 0;
        let b_zero = other.digits.len() == 1 && other.digits[0] == 0;
        proof {
            assert(a_zero <==> self.digits@ == seq![0u8]) by {
                if a_zero { assert(self.digits@ =~= seq![0u8]); }
            }
            assert(b_zero <==> other.digits@ == seq![0u8]) by {
                if b_zero { assert(other.digits@ =~= seq![0u8]); }
            }
        }
        if a_zero || b_zero {
            if a_zero && b_zero {
                return 0;
            }
            if a_zero {
                return if other.negative { 1 } else { -1 };
            }
            return if self.negative { -1 } else { 1 };
        }
        if self.negative != other.negative {
            return if self.negative { -1 } else { 1 };
        }
        let m = compare_digits(&self.digits, &other.digits);
        if self.negative { -m } else { m }
    }
}


/// The value of decimal digits written least significant first.
pub open spec fn le_value(ds: Seq<u8>) -> nat
    decreases ds.len(),
{
    if ds.len() == 0 {
        0
    } else {
        le_value(ds.drop_last()) + pow10((ds.len() - 1) as nat) * (ds.last() as nat)
    }
}

proof fn lemma_le_push(ds: Seq<u8>, d: u8)
    ensures
        le_value(ds.push(d)) == le_value(ds) + pow10(ds.len()) * (d as nat),
{
    assert(ds.push(d).drop_last() =~= ds);
}

/// `ds * m + a`, digits least significant first.
pub fn le_mul_add(ds: &Vec<u8>, m: u64, a: u64) -> (r: Vec<u8>)
    requires
        all_digits(ds@),
        1 <= m <= 36,
        a < 36,
    ensures
        all_digits(r@),
        le_value(r@) == le_value(ds@) * m + a,
{
    let mut out: Vec<u8> = Vec::new();
    let mut carry: u64 = a;
    let mut i: usize = 0;
    assert(ds@.take(0) =~= Seq::<u8>::empty());
    assert(le_value(Seq::<u8>::empty()) == 0);
    assert(pow10(0) == 1);
    while i < ds.len()
        invariant
            0 <= i <= ds@.len(),
            out@.len() == i,
            all_digits(ds@),
            all_digits(out@),
            1 <= m <= 36,
            a < 36,
            carry < 40,
            le_value(out@) + pow10(i as nat) * carry == le_value(ds@.take(i as int)) * m + a,
        decreases ds@.len() - i,
    {
        let di = ds[i];
        assert(ds@[i as int] < 10);
        assert((di as u64) * m <= 360) by (nonlinear_arith)
            requires di < 10, m <= 36;
        let x: u64 = (di as u64) * m + carry;
        let d: u8 = (x % 10) as u8;
        let c2: u64 = x / 10;
        let ghost before = out@;
        out.push(d);
        proof {
            lemma_le_push(before, d);
            assert(ds@.take(i + 1).drop_last() =~= ds@.take(i as int));
            assert(ds@.take(i + 1).last() == di);
            let p = pow10(i as nat);
            assert(pow10((i + 1) as nat) == 10 * p);
            let l = le_value(before);
            let t = le_value(ds@.take(i as int));
            assert(l + p * carry == t * m + a);
            assert(x == d + 10 * c2);
            assert(l + p * d + (10 * p) * c2 == (t + p * di) * m + a) by (nonlinear_arith)
                requires
                    l + p * carry == t * m + a,
                    x == di * m + carry,
                    x == d + 10 * c2,
            ;
            assert forall|j: int| 0 <= j < out@.len() implies #[trigger] out@[j] < 10 by {
                if j < i { assert(out@[j] == before[j]); }
            }
        }
        carry = c2;
        i = i + 1;
    }
    assert(ds@.take(i as int) =~= ds@);
    while carry > 0
        invariant
            all_digits(out@),
            carry < 40,
            le_value(out@) + pow10(out@.len()) * carry == le_value(ds@) * m + a,
        decreases carry,
    {
        let d: u8 = (carry % 10) as u8;
        let c2: u64 = carry / 10;
        let ghost before = out@;
        out.push(d);
        proof {
            lemma_le_push(before, d);
            let p = pow10(before.len());
            assert(pow10(out@.len()) == 10 * p);
            assert(carry == d + 10 * c2);
            assert(p * carry == p * d + (10 * p) * c2) by (nonlinear_arith)
                requires carry == d + 10 * c2;
            assert forall|j: int| 0 <= j < out@.len() implies #[trigger] out@[j] < 10 by {
                if j < before.len() { assert(out@[j] == before[j]); }
            }
        }
        carry = c2;
    }
    out
}

/// The digits least significant first `le`, turned most significant first, without
/// leading zeros (zero as the single digit `0`).
pub fn le_to_be(le: &Vec<u8>) -> (r: Vec<u8>)
    requires
        all_digits(le@),
    ensures
        r@ == seq![0u8] || canonical_digits(r@),
        decimal_value(r@) == le_value(le@),
{
    let mut n = le.len();
    assert(le@.take(n as int) =~= le@);
    while n > 0 && le[n - 1] == 0
        invariant
            n <= le@.len(),
            le_value(le@.take(n as int)) == le_value(le@),
        decreases n,
    {
        assert(le@.take(n as int).drop_last() =~= le@.take(n - 1));
        assert(le@.take(n as int).last() == 0);
        assert(pow10((n - 1) as nat) * 0 == 0);
        n = n - 1;
    }
    if n == 0 {
        let mut z: Vec<u8> = Vec::new();
        z.push(0);
        proof {
            lemma_zero_value();
            assert(z@ =~= seq![0u8]);
            assert(le@.take(0) =~= Seq::<u8>::empty());
            assert(le_value(Seq::<u8>::empty()) == 0);
        }
        return z;
    }
    let mut r: Vec<u8> = Vec::new();
    let mut i = n;
    assert(decimal_value(Seq::<u8>::empty()) == 0);
    while i > 0
        invariant
            0 <= i <= n <= le@.len(),
            n > 0,
            le[n - 1] != 0,
            all_digits(le@),
            r@.len() == n - i,
            all_digits(r@),
            r@.len() > 0 ==> r@[0] == le@[n - 1],
            decimal_value(r@) * pow10(i as nat) + le_value(le@.take(i as int)) == le_value(le@.take(n as int)),
        decreases i,
    {
        i = i - 1;
        let d = le[i];
        let ghost before = r@;
        r.push(d);
        proof {
            assert(le@[i as int] < 10);
            assert(r@.drop_last() =~= before);
            assert(decimal_value(r@) == decimal_value(before) * 10 + d);
            assert(le@.take(i + 1).drop_last() =~= le@.take(i as int));
            assert(le@.take(i + 1).last() == d);
            let p = pow10(i as nat);
            assert(pow10((i + 1) as nat) == 10 * p);
            let v = decimal_value(before);
            assert(le_value(le@.take(i + 1)) == le_value(le@.take(i as int)) + p * d);
            assert((v * 10 + d) * p == v * (10 * p) + p * d) by (nonlinear_arith);
            assert forall|j: int| 0 <= j < r@.len() implies #[trigger] r@[j] < 10 by {
                if j < before.len() { assert(r@[j] == before[j]); }
            }
            if before.len() > 0 {
                assert(r@[0] == before[0]);
            }
        }
    }
    assert(le@.take(0) =~= Seq::<u8>::empty());
    assert(le_value(Seq::<u8>::empty()) == 0);
    assert(pow10(0) == 1);
    assert(decimal_value(r@) * 1 == decimal_value(r@));
    r
}
} // verus!

verus! {

/// `10^(a + b) = 10^a × 10^b`.
pub proof fn lemma_pow10_add(a: nat, b: nat)
    ensures
        pow10(a + b) == pow10(a) * pow10(b),
    decreases a,
{
    if a > 0 {
        lemma_pow10_add((a - 1) as nat, b);
        assert(pow10(a + b) == 10 * pow10((a - 1 + b) as nat));
        assert(10 * (pow10((a - 1) as nat) * pow10(b)) == (10 * pow10((a - 1) as nat)) * pow10(b)) by (nonlinear_arith);
    } else {
        assert(pow10(0) == 1);
        assert(a + b == b);
    }
}

/// `10^n` is positive.
pub proof fn lemma_pow10_positive(n: nat)
    ensures
        pow10(n) >= 1,
    decreases n,
{
    if n > 0 {
        lemma_pow10_positive((n - 1) as nat);
    }
}

/// Least significant digits first, `ds` with zeros after it until it is `n` long.
fn le_pad(ds: &Vec<u8>, n: usize) -> (r: Vec<u8>)
    requires
        all_digits(ds@),
    ensures
        all_digits(r@),
        r@.len() == if ds@.len() >= n { ds@.len() } else { n as nat },
        le_value(r@) == le_value(ds@),
{
    let mut out: Vec<u8> = Vec::new();
    let mut i: usize = 0;
    assert(ds@.take(0) =~= Seq::<u8>::empty());
    while i < ds.len()
        invariant
            0 <= i <= ds@.len(),
            all_digits(ds@),
            out@ == ds@.take(i as int),
        decreases ds@.len() - i,
    {
        out.push(ds[i]);
        assert(ds@.take(i + 1) =~= ds@.take(i as int).push(ds@[i as int]));
        i = i + 1;
    }
    assert(ds@.take(i as int) =~= ds@);
    while out.len() < n
        invariant
            all_digits(out@),
            out@.len() >= ds@.len(),
            out@.len() <= (if ds@.len() >= n { ds@.len() } else { n as nat }),
            le_value(out@) == le_value(ds@),
        decreases n - out@.len(),
    {
        let ghost before = out@;
        out.push(0);
        proof {
            lemma_le_push(before, 0);
            assert(pow10(before.len()) * 0 == 0);
            assert forall|j: int| 0 <= j < out@.len() implies #[trigger] out@[j] < 10 by {
                if j < before.len() { assert(out@[j] == before[j]); }
            }
        }
    }
    out
}

/// `x + y × d`, digits least significant first.
fn le_add_scaled(x: &Vec<u8>, y: &Vec<u8>, d: u8) -> (r: Vec<u8>)
    requires
        all_digits(x@),
        all_digits(y@),
        d < 10,
    ensures
        all_digits(r@),
        le_value(r@) == le_value(x@) + le_value(y@) * d,
{
    let n = if x.len() >= y.len() { x.len() } else { y.len() };
    let xs = le_pad(x, n);
    let ys = le_pad(y, n);
    let mut out: Vec<u8> = Vec::new();
    let mut carry: u64 = 0;
    let mut i: usize = 0;
    assert(xs@.take(0) =~= Seq::<u8>::empty());
    assert(ys@.take(0) =~= Seq::<u8>::empty());
    assert(le_value(Seq::<u8>::empty()) == 0);
    while i < n
        invariant
            0 <= i <= n,
            xs@.len() == n,
            ys@.len() == n,
            out@.len() == i,
            all_digits(xs@),
            all_digits(ys@),
            all_digits(out@),
            d < 10,
            carry < 10,
            le_value(out@) + pow10(i as nat) * carry
                == le_value(xs@.take(i as int)) + le_value(ys@.take(i as int)) * d,
        decreases n - i,
    {
        let xi = xs[i];
        let yi = ys[i];
        assert(xs@[i as int] < 10);
        assert(ys@[i as int] < 10);
        assert((yi as u64) * (d as u64) <= 81) by (nonlinear_arith)
            requires yi < 10, d < 10;
        let s: u64 = (xi as u64) + (yi as u64) * (d as u64) + carry;
        let dig: u8 = (s % 10) as u8;
        let c2: u64 = s / 10;
        let ghost before = out@;
        out.push(dig);
        proof {
            lemma_le_push(before, dig);
            assert(xs@.take(i + 1) =~= xs@.take(i as int).push(xi));
            assert(ys@.take(i + 1) =~= ys@.take(i as int).push(yi));
            lemma_le_push(xs@.take(i as int), xi);
            lemma_le_push(ys@.take(i as int), yi);
            let p = pow10(i as nat);
            assert(pow10((i + 1) as nat) == 10 * p);
            let l = le_value(before);
            let tx = le_value(xs@.take(i as int));
            let ty = le_value(ys@.take(i as int));
            assert(s == dig + 10 * c2);
            assert(l + p * dig + (10 * p) * c2 == (tx + p * xi) + (ty + p * yi) * d) by (nonlinear_arith)
                requires
                    l + p * carry == tx + ty * d,
                    s == xi + yi * d + carry,
                    s == dig + 10 * c2,
            ;
            assert forall|j: int| 0 <= j < out@.len() implies #[trigger] out@[j] < 10 by {
                if j < i { assert(out@[j] == before[j]); }
            }
        }
        carry = c2;
        i = i + 1;
    }
    assert(xs@.take(n as int) =~= xs@);
    assert(ys@.take(n as int) =~= ys@);
    if carry > 0 {
        let ghost before = out@;
        out.push(carry as u8);
        proof {
            lemma_le_push(before, carry as u8);
            assert forall|j: int| 0 <= j < out@.len() implies #[trigger] out@[j] < 10 by {
                if j < before.len() { assert(out@[j] == before[j]); }
            }
        }
    } else {
        assert(pow10(n as nat) * 0 == 0);
    }
    out
}

/// The digits of `decimal_value(x) × decimal_value(y)`, most significant first, without
/// leading zeros (zero as the single digit `0`).
fn digits_product(x: &Vec<u8>, y: &Vec<u8>) -> (r: Vec<u8>)
    requires
        all_digits(x@),
        all_digits(y@),
    ensures
        r@ == seq![0u8] || canonical_digits(r@),
        decimal_value(r@) == decimal_value(x@) * decimal_value(y@),
{
    let mut xl: Vec<u8> = Vec::new();
    let mut i: usize = 0;
    assert(x@.take(0) =~= Seq::<u8>::empty());
    assert(decimal_value(Seq::<u8>::empty()) == 0);
    assert(le_value(Seq::<u8>::empty()) == 0);
    while i < x.len()
        invariant
            0 <= i <= x@.len(),
            all_digits(x@),
            all_digits(xl@),
            le_value(xl@) == decimal_value(x@.take(i as int)),
        decreases x@.len() - i,
    {
        assert(x@[i as int] < 10);
        xl = le_mul_add(&xl, 10, x[i] as u64);
        assert(x@.take(i + 1).drop_last() =~= x@.take(i as int));
        assert(x@.take(i + 1).last() == x@[i as int]);
        i = i + 1;
    }
    assert(x@.take(i as int) =~= x@);
    let mut acc: Vec<u8> = Vec::new();
    let mut j: usize = 0;
    assert(y@.take(0) =~= Seq::<u8>::empty());
    while j < y.len()
        invariant
            0 <= j <= y@.len(),
            all_digits(y@),
            all_digits(xl@),
            all_digits(acc@),
            le_value(acc@) == le_value(xl@) * decimal_value(y@.take(j as int)),
        decreases y@.len() - j,
    {
        assert(y@[j as int] < 10);
        let shifted = le_mul_add(&acc, 10, 0);
        acc = le_add_scaled(&shifted, &xl, y[j]);
        proof {
            assert(y@.take(j + 1).drop_last() =~= y@.take(j as int));
            assert(y@.take(j + 1).last() == y@[j as int]);
            let v = le_value(xl@);
            let t = decimal_value(y@.take(j as int));
            let e = y@[j as int] as nat;
            assert((v * t) * 10 + v * e == v * (t * 10 + e)) by (nonlinear_arith);
        }
        j = j + 1;
    }
    assert(y@.take(j as int) =~= y@);
    le_to_be(&acc)
}

/// `u × 10^(n - s)`: the decimal `u × 10^(-s)` written with `n` places (for `n >= s`).
pub open spec fn scaled_to(u: int, s: int, n: int) -> int {
    u * pow10((n - s) as nat)
}

/// The larger of two integers.
pub open spec fn larger(a: int, b: int) -> int {
    if a >= b { a } else { b }
}

/// The sign of an integer: `-1`, `0` or `1`.
pub open spec fn sign(x: int) -> int {
    if x < 0 { -1 } else if x == 0 { 0 } else { 1 }
}

/// The sign of `u1 × 10^(-s1) - u2 × 10^(-s2)`.
pub open spec fn compare_scaled_values(u1: int, s1: int, u2: int, s2: int) -> int {
    let n = larger(s1, s2);
    sign(scaled_to(u1, s1, n) - scaled_to(u2, s2, n))
}

/// Magnitudes first: the sign of `decimal_value(x) × 10^(-sx) - decimal_value(y) × 10^(-sy)`
/// for canonical numerals.
fn compare_magnitudes(x: &Vec<u8>, sx: i64, y: &Vec<u8>, sy: i64) -> (r: i8)
    requires
        canonical_digits(x@),
        canonical_digits(y@),
    ensures
        r as int == compare_scaled_values(decimal_value(x@) as int, sx as int, decimal_value(y@) as int, sy as int),
{
    let ex: i128 = x.len() as i128 - sx as i128;
    let ey: i128 = y.len() as i128 - sy as i128;
    let ghost n = larger(sx as int, sy as int);
    let ghost xv = decimal_value(x@) as int;
    let ghost yv = decimal_value(y@) as int;
    proof {
        lemma_decimal_bounds(x@);
        lemma_decimal_bounds(y@);
    }
    if ex != ey {
        proof {
            if ex > ey {
                lemma_order_decides(x@, sx as int, y@, sy as int, n);
            } else {
                lemma_order_decides(y@, sy as int, x@, sx as int, n);
            }
        }
        return if ex > ey { 1 } else { -1 };
    }
    if sx <= sy {
        let k: usize = (sy as i128 - sx as i128) as usize;
        let mut xp: Vec<u8> = Vec::new();
        let mut i: usize = 0;
        while i < x.len()
            invariant
                0 <= i <= x@.len(),
                xp@ == x@.take(i as int),
            decreases x@.len() - i,
        {
            xp.push(x[i]);
            assert(x@.take(i + 1) =~= x@.take(i as int).push(x@[i as int]));
            i = i + 1;
        }
        assert(x@.take(i as int) =~= x@);
        let mut z: usize = 0;
        while z < k
            invariant
                z <= k,
                k == y@.len() - x@.len(),
                xp@ == x@ + Seq::new(z as nat, |j: int| 0u8),
            decreases k - z,
        {
            xp.push(0);
            assert(x@ + Seq::new((z + 1) as nat, |j: int| 0u8) =~= (x@ + Seq::new(z as nat, |j: int| 0u8)).push(0));
            z = z + 1;
        }
        proof {
            let zs = Seq::new(k as nat, |j: int| 0u8);
            lemma_decimal_concat(x@, zs);
            lemma_zeros_value(k as nat);
            assert(xp@[0] == x@[0]);
            assert forall|j: int| 0 <= j < xp@.len() implies #[trigger] xp@[j] < 10 by {
                if j < x@.len() { assert(xp@[j] == x@[j]); } else { assert(xp@[j] == zs[j - x@.len()]); }
            }
            assert(n == sy);
            assert((n - sy) as nat == 0);
            assert(pow10(0) == 1);
        }
        let c = compare_digits(&xp, y);
        proof {
            let zs = Seq::new(k as nat, |j: int| 0u8);
            assert(decimal_value(xp@) == xv * pow10(k as nat));
            assert(scaled_to(yv, sy as int, n) == yv * 1);
            assert((n - sx) as nat == k as nat);
        }
        c
    } else {
        let k: usize = (sx as i128 - sy as i128) as usize;
        let mut yp: Vec<u8> = Vec::new();
        let mut i: usize = 0;
        while i < y.len()
            invariant
                0 <= i <= y@.len(),
                yp@ == y@.take(i as int),
            decreases y@.len() - i,
        {
            yp.push(y[i]);
            assert(y@.take(i + 1) =~= y@.take(i as int).push(y@[i as int]));
            i = i + 1;
        }
        assert(y@.take(i as int) =~= y@);
        let mut z: usize = 0;
        while z < k
            invariant
                z <= k,
                k == x@.len() - y@.len(),
                yp@ == y@ + Seq::new(z as nat, |j: int| 0u8),
            decreases k - z,
        {
            yp.push(0);
            assert(y@ + Seq::new((z + 1) as nat, |j: int| 0u8) =~= (y@ + Seq::new(z as nat, |j: int| 0u8)).push(0));
            z = z + 1;
        }
        proof {
            let zs = Seq::new(k as nat, |j: int| 0u8);
            lemma_decimal_concat(y@, zs);
            lemma_zeros_value(k as nat);
            assert(yp@[0] == y@[0]);
            assert forall|j: int| 0 <= j < yp@.len() implies #[trigger] yp@[j] < 10 by {
                if j < y@.len() { assert(yp@[j] == y@[j]); } else { assert(yp@[j] == zs[j - y@.len()]); }
            }
            assert(n == sx);
            assert((n - sx) as nat == 0);
            assert(pow10(0) == 1);
        }
        let c = compare_digits(x, &yp);
        proof {
            assert(decimal_value(yp@) == yv * pow10(k as nat));
            assert(scaled_to(xv, sx as int, n) == xv * 1);
            assert((n - sy) as nat == k as nat);
        }
        c
    }
}

/// Zeros are worth nothing.
pub proof fn lemma_zeros_value(k: nat)
    ensures
        decimal_value(Seq::new(k, |j: int| 0u8)) == 0,
    decreases k,
{
    if k > 0 {
        lemma_zeros_value((k - 1) as nat);
        assert(Seq::new(k, |j: int| 0u8).drop_last() =~= Seq::new((k - 1) as nat, |j: int| 0u8));
    }
}

/// Where `x` has the higher order of magnitude (`len - scale`), its scaled value is larger.
proof fn lemma_order_decides(x: Seq<u8>, sx: int, y: Seq<u8>, sy: int, n: int)
    requires
        canonical_digits(x),
        canonical_digits(y),
        x.len() - sx > y.len() - sy,
        n >= sx,
        n >= sy,
    ensures
        scaled_to(decimal_value(x) as int, sx, n) > scaled_to(decimal_value(y) as int, sy, n),
{
    lemma_decimal_bounds(x);
    lemma_decimal_bounds(y);
    let a = (x.len() - 1) as nat;
    let ka = (n - sx) as nat;
    let b = y.len() as nat;
    let kb = (n - sy) as nat;
    lemma_pow10_add(a, ka);
    lemma_pow10_add(b, kb);
    lemma_pow10_mono(b + kb, a + ka);
    lemma_pow10_positive(ka);
    lemma_pow10_positive(kb);
    let xv = decimal_value(x);
    let yv = decimal_value(y);
    assert(xv * pow10(ka) >= pow10(a) * pow10(ka)) by (nonlinear_arith)
        requires xv >= pow10(a), pow10(ka) >= 1;
    assert(yv * pow10(kb) < pow10(b) * pow10(kb)) by (nonlinear_arith)
        requires yv < pow10(b), pow10(kb) >= 1;
}

impl BigInteger {
    /// The sign of `self × 10^(-s) - other × 10^(-t)`.
    pub fn compare_scaled(&self, s: i64, other: &BigInteger, t: i64) -> (r: i8)
        ensures
            r as int == compare_scaled_values(self.value(), s as int, other.value(), t as int),
    {
        proof {
            use_type_invariant(self);
            use_type_invariant(other);
            lemma_zero_value();
            let n = larger(s as int, t as int);
            lemma_pow10_positive((n - s) as nat);
            lemma_pow10_positive((n - t) as nat);
            let p = pow10((n - s) as nat);
            let q = pow10((n - t) as nat);
            let a = decimal_value(self.digits@) as int;
            let b = decimal_value(other.digits@) as int;
            assert((-a) * p == -(a * p)) by (nonlinear_arith);
            assert((-b) * q == -(b * q)) by (nonlinear_arith);
            if self.digits@ != seq![0u8] {
                lemma_canonical_text(self.digits@);
                assert(a * p >= 1) by (nonlinear_arith) requires a >= 1, p >= 1;
            }
            if other.digits@ != seq![0u8] {
                lemma_canonical_text(other.digits@);
                assert(b * q >= 1) by (nonlinear_arith) requires b >= 1, q >= 1;
            }
        }
        let a_zero = self.digits.len() == 1 && self.digits[0] == 0;
        let b_zero = other.digits.len() == 1 && other.digits[0] == 0;
        proof {
            assert(a_zero <==> self.digits@ == seq![0u8]) by {
                if a_zero { assert(self.digits@ =~= seq![0u8]); }
            }
            assert(b_zero <==> other.digits@ == seq![0u8]) by {
                if b_zero { assert(other.digits@ =~= seq![0u8]); }
            }
        }
        if a_zero || b_zero {
            if a_zero && b_zero {
                return 0;
            }
            if a_zero {
                return if other.negative { 1 } else { -1 };
            }
            return if self.negative { -1 } else { 1 };
        }
        if self.negative != other.negative {
            return if self.negative { -1 } else { 1 };
        }
        let m = compare_magnitudes(&self.digits, s, &other.digits, t);
        if self.negative { -m } else { m }
    }

    /// The sign of `self × b - c × d`, for positive `b` and `d`.
    pub fn compare_products(&self, b: &BigInteger, c: &BigInteger, d: &BigInteger) -> (r: i8)
        requires
            b.value() > 0,
            d.value() > 0,
        ensures
            r as int == sign(self.value() * b.value() - c.value() * d.value()),
    {
        proof {
            use_type_invariant(self);
            use_type_invariant(b);
            use_type_invariant(c);
            use_type_invariant(d);
            lemma_zero_value();
            let av = decimal_value(self.digits@) as int;
            let bv = b.value();
            let cv = decimal_value(c.digits@) as int;
            let dv = d.value();
            assert(bv == decimal_value(b.digits@) as int);
            assert(dv == decimal_value(d.digits@) as int);
            assert((-av) * bv == -(av * bv)) by (nonlinear_arith);
            assert((-cv) * dv == -(cv * dv)) by (nonlinear_arith);
            assert(0 * bv == 0 && 0 * dv == 0);
            if self.digits@ != seq![0u8] {
                lemma_canonical_text(self.digits@);
                assert(av * bv >= 1) by (nonlinear_arith) requires av >= 1, bv >= 1;
            }
            if c.digits@ != seq![0u8] {
                lemma_canonical_text(c.digits@);
                assert(cv * dv >= 1) by (nonlinear_arith) requires cv >= 1, dv >= 1;
            }
        }
        let a_zero = self.digits.len() == 1 && self.digits[0] == 0;
        let c_zero = c.digits.len() == 1 && c.digits[0] == 0;
        proof {
            assert(a_zero <==> self.digits@ == seq![0u8]) by {
                if a_zero { assert(self.digits@ =~= seq![0u8]); }
            }
            assert(c_zero <==> c.digits@ == seq![0u8]) by {
                if c_zero { assert(c.digits@ =~= seq![0u8]); }
            }
        }
        if a_zero || c_zero {
            if a_zero && c_zero {
                return 0;
            }
            if a_zero {
                return if c.negative { 1 } else { -1 };
            }
            return if self.negative { -1 } else { 1 };
        }
        if self.negative != c.negative {
            return if self.negative { -1 } else { 1 };
        }
        let p = digits_product(&self.digits, &b.digits);
        let q = digits_product(&c.digits, &d.digits);
        proof {
            let av = decimal_value(self.digits@) as int;
            let cv = decimal_value(c.digits@) as int;
            lemma_zero_value();
            assert(decimal_value(p@) >= 1);
            assert(decimal_value(q@) >= 1);
            assert(p@ != seq![0u8]);
            assert(q@ != seq![0u8]);
        }
        let m = compare_digits(&p, &q);
        if self.negative { -m } else { m }
    }
}

} // verus!

verus! {

/// `m × 10^(-s)` without the trailing zeros of `m`.
pub open spec fn stripped(m: nat, s: int) -> (nat, int)
    decreases m,
{
    if m > 0 && m % 10 == 0 {
        stripped(m / 10, s - 1)
    } else {
        (m, s)
    }
}

/// The float that the decimal `u × 10^(-s)` reads as: zero for zero; an infinity where
/// the value is at least `10^309` (above every finite `f64`); zero where it is below
/// `10^-324` (below every nonzero `f64`); else the exact decimal without trailing zeros.
/// The rounding to the nearest `f64` is not modelled.
pub open spec fn float_model(u: int, s: int) -> FloatModel {
    let m: nat = if u < 0 { (-u) as nat } else { u as nat };
    let order = nat_text(m).len() - s;
    if m == 0 {
        FloatModel::Finite(0, 0)
    } else if order > 309 {
        if u < 0 { FloatModel::NegInfinity } else { FloatModel::Infinity }
    } else if order < -323 {
        FloatModel::Finite(0, 0)
    } else {
        let (m2, s2) = stripped(m, s);
        FloatModel::Finite(if u < 0 { -m2 } else { m2 as int }, s2)
    }
}

/// `n` zeros.
pub open spec fn zeros(n: int) -> Seq<char> {
    Seq::new(if n > 0 { n as nat } else { 0 }, |i: int| '0')
}

/// A finite float printed as `f64`'s `Display` prints it: positional, without exponent,
/// the digits of the magnitude with the point `s` places from the right (none where
/// `s <= 0`, zeros added on either side where needed), `-` before a negative one.
pub open spec fn float_text(u: int, s: int) -> Seq<char> {
    let m: nat = if u < 0 { (-u) as nat } else { u as nat };
    let d = nat_text(m);
    let sign: Seq<char> = if u < 0 { seq!['-'] } else { Seq::empty() };
    if s <= 0 {
        sign + d + zeros(-s)
    } else if s < d.len() {
        sign + d.take(d.len() - s) + seq!['.'] + d.skip(d.len() - s)
    } else {
        sign + seq!['0', '.'] + zeros(s - d.len()) + d
    }
}

/// Appends `n` zeros.
fn push_zeros(out: &mut String, n: u64)
    ensures
        final(out)@ == old(out)@ + zeros(n as int),
{
    let mut i: u64 = 0;
    while i < n
        invariant
            i <= n,
            out@ == old(out)@ + zeros(i as int),
        decreases n - i,
    {
        out.push('0');
        assert(zeros(i + 1) =~= zeros(i as int).push('0'));
        i = i + 1;
    }
}

/// Appends `cs[from..to]`.
fn push_digit_chars(out: &mut String, ds: &Vec<u8>, from: usize, to: usize)
    requires
        from <= to <= ds@.len(),
        all_digits(ds@),
    ensures
        final(out)@ == old(out)@ + digit_chars(ds@).subrange(from as int, to as int),
{
    let mut i = from;
    while i < to
        invariant
            from <= i <= to <= ds@.len(),
            all_digits(ds@),
            out@ == old(out)@ + digit_chars(ds@).subrange(from as int, i as int),
        decreases to - i,
    {
        let d = ds[i];
        assert(ds@[i as int] < 10);
        out.push(char_of_digit(d));
        assert(digit_chars(ds@).subrange(from as int, i + 1) =~= digit_chars(ds@).subrange(from as int, i as int).push(digit_char(d as int)));
        i = i + 1;
    }
}

/// The digits of a big integer's magnitude are its decimal text.
proof fn lemma_digits_text(negative: bool, ds: Seq<u8>)
    requires
        canonical_digits(ds) || (ds == seq![0u8] && !negative),
    ensures
        all_digits(ds),
        digit_chars(ds) == nat_text(decimal_value(ds)),
        ds.len() >= 1,
        decimal_value(ds) == 0 <==> ds == seq![0u8],
{
    lemma_zero_value();
    if ds == seq![0u8] {
        assert(digit_chars(ds) =~= seq![digit_char(0)]);
    } else {
        lemma_canonical_text(ds);
    }
}

impl BigInteger {
    /// Appends the text of the float `self × 10^(-s)` (see `float_text`).
    pub fn push_float_text(&self, s: i64, out: &mut String)
        ensures
            final(out)@ == old(out)@ + float_text(self.value(), s as int),
    {
        proof { use_type_invariant(self); lemma_digits_text(self.negative, self.digits@); }
        let ghost d = digit_chars(self.digits@);
        let ghost start = out@;
        if self.negative {
            out.push('-');
        }
        let ghost signed = out@;
        let len = self.digits.len();
        assert(d.len() == len);
        if s <= 0 {
            push_digit_chars(out, &self.digits, 0, len);
            let k: u64 = (0i128 - s as i128) as u64;
            push_zeros(out, k);
            assert(d.subrange(0, len as int) =~= d);
        } else if (s as u64) < (len as u64) {
            let cut: usize = len - (s as usize);
            push_digit_chars(out, &self.digits, 0, cut);
            out.push('.');
            push_digit_chars(out, &self.digits, cut, len);
            assert(d.subrange(0, cut as int) =~= d.take(cut as int));
            assert(d.subrange(cut as int, len as int) =~= d.skip(cut as int));
        } else {
            out.push('0');
            out.push('.');
            push_zeros(out, (s as u64) - (len as u64));
            push_digit_chars(out, &self.digits, 0, len);
            assert(d.subrange(0, len as int) =~= d);
        }
        assert(out@ =~= start + float_text(self.value(), s as int));
    }

    /// The float that `self × 10^(-s)` reads as (see `float_model`).
    pub fn float_of(&self, s: i64) -> (r: FloatValue)
        ensures
            r.model() == float_model(self.value(), s as int),
    {
        proof { use_type_invariant(self); lemma_digits_text(self.negative, self.digits@); }
        let len = self.digits.len();
        if len == 1 && self.digits[0] == 0 {
            assert(self.digits@ =~= seq![0u8]);
            return FloatValue::Finite(FloatNumber::new(Decimal::new(BigInteger::zero(), 0)));
        }
        let order: i128 = len as i128 - s as i128;
        if order > 309 {
            return if self.negative { FloatValue::NegInfinity } else { FloatValue::Infinity };
        }
        if order < -323 {
            return FloatValue::Finite(FloatNumber::new(Decimal::new(BigInteger::zero(), 0)));
        }
        let mut ds: Vec<u8> = Vec::new();
        let mut i: usize = 0;
        while i < len
            invariant
                0 <= i <= len == self.digits@.len(),
                ds@ == self.digits@.take(i as int),
            decreases len - i,
        {
            ds.push(self.digits[i]);
            assert(self.digits@.take(i + 1) =~= self.digits@.take(i as int).push(self.digits@[i as int]));
            i = i + 1;
        }
        assert(self.digits@.take(i as int) =~= self.digits@);
        let ghost m = decimal_value(self.digits@);
        let mut sc: i128 = s as i128;
        proof {
            use_type_invariant(self);
            assert(canonical_digits(self.digits@));
        }
        while ds[ds.len() - 1] == 0
            invariant
                canonical_digits(ds@),
                sc <= s as i128,
                ds@.len() as int - sc == order,
                -323 <= order <= 309,
                stripped(decimal_value(ds@), sc as int) == stripped(m, s as int),
            decreases ds@.len(),
        {
            let ghost before = ds@;
            proof {
                assert(before[before.len() - 1] == 0);
                if before.len() == 1 {
                    assert(before[0] != 0);
                }
                assert(before.drop_last().last() == before[before.len() - 2]) by {
                    assert(before.drop_last()[before.len() - 2] == before[before.len() - 2]);
                }
            }
            ds.pop();
            proof {
                assert(ds@ =~= before.drop_last());
                assert(decimal_value(before) == decimal_value(ds@) * 10 + 0);
                lemma_canonical_text(before);
                assert(ds@[0] == before[0]);
                assert forall|j: int| 0 <= j < ds@.len() implies #[trigger] ds@[j] < 10 by {
                    assert(ds@[j] == before[j]);
                }
                lemma_canonical_text(ds@);
                assert(decimal_value(before) % 10 == 0);
                assert(decimal_value(before) / 10 == decimal_value(ds@));
            }
            sc = sc - 1;
        }
        proof {
            lemma_canonical_text(ds@);
            assert(ds@.last() != 0);
            assert(decimal_value(ds@) % 10 == ds@.last() as nat) by {
                assert(decimal_value(ds@) == decimal_value(ds@.drop_last()) * 10 + ds@.last() as nat);
            }
            assert(nat_text(m).len() == len) by {
                assert(digit_chars(self.digits@).len() == self.digits@.len());
            }
            assert(decimal_value(ds@) > 0);
            assert(i64::MIN <= sc <= i64::MAX);
            assert(stripped(decimal_value(ds@), sc as int) == (decimal_value(ds@), sc as int));
            assert(stripped(m, s as int) == (decimal_value(ds@), sc as int));
            assert(m > 0);
            if self.negative {
                assert(self.value() == -(m as int));
            } else {
                assert(self.value() == m as int);
            }
        }
        let v = BigInteger::from_digits(self.negative, ds);
        FloatValue::Finite(FloatNumber::new(Decimal::new(v, sc as i64)))
    }
}

} // verus!
