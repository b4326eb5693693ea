//! The order of EDN values, which sets and maps keep their elements in,
//! and the building of sets and maps from the forms that were read.
use vstd::prelude::*;
use crate::bigint::{compare_scaled_values, sign};
use crate::edn::{lemma_set_elements, lemma_map_entries, Edn, EdnValue, FloatValue, FloatModel, Decimal, Ratio, models, entry_models, lemma_models, lemma_entry_models};
use crate::text::chars_of;

verus! {

/// The sign of `a - b`.
pub open spec fn compare_ints(a: int, b: int) -> int {
    if a < b { -1 } else if a == b { 0 } else { 1 }
}

/// The position of a variant in the declaration of `Edn`; values of different
/// variants are ordered by it.
pub open spec fn variant_rank(a: EdnValue) -> int {
    match a {
        EdnValue::Nil => 0,
        EdnValue::Bool(_) => 1,
        EdnValue::Str(_) => 2,
        EdnValue::Char(_) => 3,
        EdnValue::Symbol(_) => 4,
        EdnValue::Keyword(_) => 5,
        EdnValue::Int(_) => 6,
        EdnValue::BigInt(_) => 7,
        EdnValue::Float(_) => 8,
        EdnValue::Decimal(_, _) => 9,
        EdnValue::Ratio(_, _) => 10,
        EdnValue::List(_) => 11,
        EdnValue::Vector(_) => 12,
        EdnValue::SetOf(_) => 13,
        EdnValue::MapOf(_) => 14,
        EdnValue::Tagged(_, _) => 15,
    }
}

/// The rank of a float: negative infinity, then the finite floats, then infinity, then NaN.
pub open spec fn float_rank(f: FloatModel) -> int {
    match f {
        FloatModel::NegInfinity => 0,
        FloatModel::Finite(_, _) => 1,
        FloatModel::Infinity => 2,
        FloatModel::NaN => 3,
    }
}

/// The order of decimals: by value, then by scale (`1.5M` before `1.50M`).
pub open spec fn compare_decimals(u1: int, s1: int, u2: int, s2: int) -> int {
    if compare_scaled_values(u1, s1, u2, s2) != 0 {
        compare_scaled_values(u1, s1, u2, s2)
    } else {
        compare_ints(s1, s2)
    }
}

/// The order of floats: by rank, finite ones by value (and scale).
pub open spec fn compare_floats(x: FloatModel, y: FloatModel) -> int {
    match (x, y) {
        (FloatModel::Finite(u1, s1), FloatModel::Finite(u2, s2)) => compare_decimals(u1, s1, u2, s2),
        _ => compare_ints(float_rank(x), float_rank(y)),
    }
}

/// A denominator taken as positive (a ratio's denominator always is).
pub open spec fn positive_part(q: int) -> int {
    if q > 0 { q } else { 1 }
}

/// The order of ratios: by value, then by denominator, then by numerator.
pub open spec fn compare_ratios(p1: int, q1: int, p2: int, q2: int) -> int {
    let c = sign(p1 * positive_part(q2) - p2 * positive_part(q1));
    if c != 0 {
        c
    } else if compare_ints(q1, q2) != 0 {
        compare_ints(q1, q2)
    } else {
        compare_ints(p1, p2)
    }
}

/// Lexicographic order of texts, by code point.
pub open spec fn compare_texts(a: Seq<char>, b: Seq<char>) -> int
    decreases a.len(),
{
    if a.len() == 0 {
        if b.len() == 0 { 0 } else { -1 }
    } else if b.len() == 0 {
        1
    } else if a[0] != b[0] {
        if a[0] < b[0] { -1 } else { 1 }
    } else {
        compare_texts(a.drop_first(), b.drop_first())
    }
}

/// The order of EDN values: by variant first, then by contents; texts and sequences
/// lexicographically, numbers by value, `false` before `true`.
/// The result is `-1`, `0` or `1`.
pub open spec fn compare_values(a: EdnValue, b: EdnValue) -> int
    decreases a,
{
    if variant_rank(a) != variant_rank(b) {
        compare_ints(variant_rank(a), variant_rank(b))
    } else {
        match (a, b) {
            (EdnValue::Bool(x), EdnValue::Bool(y)) => compare_ints(
                if x { 1 } else { 0 },
                if y { 1 } else { 0 },
            ),
            (EdnValue::Str(x), EdnValue::Str(y)) => compare_texts(x, y),
            (EdnValue::Char(x), EdnValue::Char(y)) => if x < y {
                -1
            } else if x == y {
                0
            } else {
                1
            },
            (EdnValue::Symbol(x), EdnValue::Symbol(y)) => compare_texts(x, y),
            (EdnValue::Keyword(x), EdnValue::Keyword(y)) => compare_texts(x, y),
            (EdnValue::Int(x), EdnValue::Int(y)) => compare_ints(x, y),
            (EdnValue::BigInt(x), EdnValue::BigInt(y)) => compare_ints(x, y),
            (EdnValue::Float(x), EdnValue::Float(y)) => compare_floats(x, y),
            (EdnValue::Decimal(u1, s1), EdnValue::Decimal(u2, s2)) => compare_decimals(u1, s1, u2, s2),
            (EdnValue::Ratio(p1, q1), EdnValue::Ratio(p2, q2)) => compare_ratios(p1, q1, p2, q2),
            (EdnValue::List(x), EdnValue::List(y)) => compare_seqs(x, y),
            (EdnValue::Vector(x), EdnValue::Vector(y)) => compare_seqs(x, y),
            (EdnValue::SetOf(x), EdnValue::SetOf(y)) => compare_seqs(x, y),
            (EdnValue::MapOf(x), EdnValue::MapOf(y)) => compare_entries(x, y),
            (EdnValue::Tagged(t, x), EdnValue::Tagged(u, y)) => if compare_texts(t, u) != 0 {
                compare_texts(t, u)
            } else {
                compare_values(*x, *y)
            },
            _ => 0,
        }
    }
}

/// Lexicographic order of sequences of values.
pub open spec fn compare_seqs(a: Seq<EdnValue>, b: Seq<EdnValue>) -> int
    decreases a,
{
    if a.len() == 0 {
        if b.len() == 0 { 0 } else { -1 }
    } else if b.len() == 0 {
        1
    } else if compare_values(a[0], b[0]) != 0 {
        compare_values(a[0], b[0])
    } else {
        compare_seqs(a.drop_first(), b.drop_first())
    }
}

/// Lexicographic order of sequences of map entries, each compared by key, then by value.
pub open spec fn compare_entries(a: Seq<(EdnValue, EdnValue)>, b: Seq<(EdnValue, EdnValue)>) -> int
    decreases a,
{
    if a.len() == 0 {
        if b.len() == 0 { 0 } else { -1 }
    } else if b.len() == 0 {
        1
    } else if compare_values(a[0].0, b[0].0) != 0 {
        compare_values(a[0].0, b[0].0)
    } else if compare_values(a[0].1, b[0].1) != 0 {
        compare_values(a[0].1, b[0].1)
    } else {
        compare_entries(a.drop_first(), b.drop_first())
    }
}

/// Adds `x` to the ascending sequence `s`; an element equal to `x` stays as it is.
pub open spec fn set_insert(s: Seq<EdnValue>, x: EdnValue) -> Seq<EdnValue>
    decreases s.len(),
{
    if s.len() == 0 {
        seq![x]
    } else if compare_values(x, s[0]) < 0 {
        seq![x] + s
    } else if compare_values(x, s[0]) == 0 {
        s
    } else {
        seq![s[0]] + set_insert(s.drop_first(), x)
    }
}

/// The set of the given items, in ascending order, each kept where it first occurs.
pub open spec fn set_of(items: Seq<EdnValue>) -> Seq<EdnValue>
    decreases items.len(),
{
    if items.len() == 0 {
        Seq::empty()
    } else {
        set_insert(set_of(items.drop_last()), items.last())
    }
}

/// Adds the entry `(k, v)` to the entries `s`, ascending by key; where a key equal to `k`
/// is there already, that key stays and its value becomes `v`.
pub open spec fn map_insert(s: Seq<(EdnValue, EdnValue)>, k: EdnValue, v: EdnValue) -> Seq<
    (EdnValue, EdnValue),
>
    decreases s.len(),
{
    if s.len() == 0 {
        seq![(k, v)]
    } else if compare_values(k, s[0].0) < 0 {
        seq![(k, v)] + s
    } else if compare_values(k, s[0].0) == 0 {
        seq![(s[0].0, v)] + s.drop_first()
    } else {
        seq![s[0]] + map_insert(s.drop_first(), k, v)
    }
}

/// The map of the given entries, in ascending order of keys, each key with its last value.
pub open spec fn map_of(entries: Seq<(EdnValue, EdnValue)>) -> Seq<(EdnValue, EdnValue)>
    decreases entries.len(),
{
    if entries.len() == 0 {
        Seq::empty()
    } else {
        map_insert(map_of(entries.drop_last()), entries.last().0, entries.last().1)
    }
}

/// The items of a sequence of even length, taken two by two.
pub open spec fn pairs_of(items: Seq<EdnValue>) -> Seq<(EdnValue, EdnValue)> {
    Seq::new(items.len() / 2, |i: int| (items[2 * i], items[2 * i + 1]))
}


fn rank_of(a: &Edn) -> (r: u8)
    ensures
        r as int == variant_rank(a.model()),
{
    match a {
        Edn::Nil => 0,
        Edn::Bool(_) => 1,
        Edn::String(_) => 2,
        Edn::Char(_) => 3,
        Edn::Symbol(_) => 4,
        Edn::Keyword(_) => 5,
        Edn::Int(_) => 6,
        Edn::BigInt(_) => 7,
        Edn::Float(_) => 8,
        Edn::BigDecimal(_) => 9,
        Edn::BigRational(_) => 10,
        Edn::List(_) => 11,
        Edn::Vec(_) => 12,
        Edn::SetOf(_) => 13,
        Edn::MapOf(_) => 14,
        Edn::TaggedElement(_, _) => 15,
    }
}

fn float_rank_of(f: &FloatValue) -> (r: u8)
    ensures
        r as int == float_rank(f.model()),
{
    match f {
        FloatValue::NegInfinity => 0,
        FloatValue::Finite(_) => 1,
        FloatValue::Infinity => 2,
        FloatValue::NaN => 3,
    }
}

fn compare_decimal_parts(x: &Decimal, y: &Decimal) -> (r: i8)
    ensures
        r as int == compare_decimals(x.unscaled_value(), x.scale_value(), y.unscaled_value(), y.scale_value()),
{
    let c = x.unscaled().compare_scaled(x.scale(), y.unscaled(), y.scale());
    if c != 0 {
        c
    } else {
        compare_numbers(x.scale(), y.scale())
    }
}

fn compare_float_values(x: &FloatValue, y: &FloatValue) -> (r: i8)
    ensures
        r as int == compare_floats(x.model(), y.model()),
{
    match (x, y) {
        (FloatValue::Finite(a), FloatValue::Finite(b)) => {
            compare_decimal_parts(a.value(), b.value())
        },
        _ => {
            let fx = float_rank_of(x);
            let fy = float_rank_of(y);
            if fx < fy { -1 } else if fx == fy { 0 } else { 1 }
        },
    }
}

fn compare_ratio_values(x: &Ratio, y: &Ratio) -> (r: i8)
    ensures
        r as int == compare_ratios(x.numer_value(), x.denom_value(), y.numer_value(), y.denom_value()),
{
    let c = x.numer().compare_products(y.denom(), y.numer(), x.denom());
    if c != 0 {
        return c;
    }
    let d = x.denom().compare(y.denom());
    if d != 0 {
        return d;
    }
    x.numer().compare(y.numer())
}

fn compare_numbers(a: i64, b: i64) -> (r: i8)
    ensures
        r as int == compare_ints(a as int, b as int),
{
    if a < b { -1 } else if a == b { 0 } else { 1 }
}

/// Compares two texts by code point, lexicographically.
pub fn compare_strings(a: &String, b: &String) -> (r: i8)
    ensures
        r as int == compare_texts(a@, b@),
{
    compare_strs(a.as_str(), b.as_str())
}

/// Compares two string slices by code point, lexicographically.
fn compare_strs(a: &str, b: &str) -> (r: i8)
    ensures
        r as int == compare_texts(a@, b@),
{
    let x = chars_of(a);
    let y = chars_of(b);
    let mut i: usize = 0;
    assert(x@.skip(0) =~= x@);
    assert(y@.skip(0) =~= y@);
    while i < x.len() && i < y.len() && x[i] == y[i]
        invariant
            0 <= i <= x@.len(),
            i <= y@.len(),
            compare_texts(x@.skip(i as int), y@.skip(i as int)) == compare_texts(x@, y@),
        decreases x@.len() - i,
    {
        assert(x@.skip(i as int).drop_first() =~= x@.skip(i + 1));
        assert(y@.skip(i as int).drop_first() =~= y@.skip(i + 1));
        i = i + 1;
    }
    assert(x@.skip(0) =~= x@);
    if i == x.len() {
        if i == y.len() { 0 } else { -1 }
    } else if i == y.len() {
        1
    } else {
        if x[i] < y[i] { -1 } else { 1 }
    }
}

/// Compares two EDN values in the order of `compare_values`.
pub fn compare_edn(a: &Edn, b: &Edn) -> (r: i8)
    ensures
        r as int == compare_values(a.model(), b.model()),
    decreases a,
{
    let ra = rank_of(a);
    let rb = rank_of(b);
    if ra != rb {
        return if ra < rb { -1 } else { 1 };
    }
    match (a, b) {
        (Edn::Bool(x), Edn::Bool(y)) => {
            if *x == *y { 0 } else if !*x { -1 } else { 1 }
        },
        (Edn::String(x), Edn::String(y)) => compare_strings(x, y),
        (Edn::Char(x), Edn::Char(y)) => {
            if *x < *y { -1 } else if *x == *y { 0 } else { 1 }
        },
        (Edn::Symbol(x), Edn::Symbol(y)) => compare_strings(x, y),
        (Edn::Keyword(x), Edn::Keyword(y)) => compare_strings(x, y),
        (Edn::Int(x), Edn::Int(y)) => compare_numbers(*x, *y),
        (Edn::BigInt(x), Edn::BigInt(y)) => x.compare(y),
        (Edn::Float(x), Edn::Float(y)) => compare_float_values(x, y),
        (Edn::BigDecimal(x), Edn::BigDecimal(y)) => compare_decimal_parts(x, y),
        (Edn::BigRational(x), Edn::BigRational(y)) => compare_ratio_values(x, y),
        (Edn::List(x), Edn::List(y)) => compare_vecs(x, y),
        (Edn::Vec(x), Edn::Vec(y)) => compare_vecs(x, y),
        (Edn::SetOf(x), Edn::SetOf(y)) => {
            proof { lemma_set_elements(x); lemma_set_elements(y); }
            compare_vecs(&x.items, &y.items)
        },
        (Edn::MapOf(x), Edn::MapOf(y)) => {
            proof { lemma_map_entries(x); lemma_map_entries(y); }
            compare_entry_vecs(&x.entries, &y.entries)
        },
        (Edn::TaggedElement(t, x), Edn::TaggedElement(u, y)) => {
            let c = compare_strings(t, u);
            if c != 0 { c } else { compare_edn(x, y) }
        },
        _ => 0,
    }
}

fn compare_vecs(x: &Vec<Edn>, y: &Vec<Edn>) -> (r: i8)
    ensures
        r as int == compare_seqs(models(x@), models(y@)),
    decreases x,
{
    proof {
        lemma_models(x@);
        lemma_models(y@);
    }
    let mut i: usize = 0;
    assert(models(x@).skip(0) =~= models(x@));
    assert(models(y@).skip(0) =~= models(y@));
    while i < x.len() && i < y.len()
        invariant
            0 <= i <= x@.len(),
            i <= y@.len(),
            models(x@).len() == x@.len(),
            models(y@).len() == y@.len(),
            forall|j: int| 0 <= j < x@.len() ==> #[trigger] models(x@)[j] == x@[j].model(),
            forall|j: int| 0 <= j < y@.len() ==> #[trigger] models(y@)[j] == y@[j].model(),
            compare_seqs(models(x@).skip(i as int), models(y@).skip(i as int)) == compare_seqs(models(x@), models(y@)),
        decreases x@.len() - i,
    {
        let c = compare_edn(&x[i], &y[i]);
        assert(models(x@).skip(i as int)[0] == x@[i as int].model());
        assert(models(y@).skip(i as int)[0] == y@[i as int].model());
        if c != 0 {
            return c;
        }
        assert(models(x@).skip(i as int).drop_first() =~= models(x@).skip(i + 1));
        assert(models(y@).skip(i as int).drop_first() =~= models(y@).skip(i + 1));
        i = i + 1;
    }
    assert(models(x@).skip(0) =~= models(x@));
    assert(models(y@).skip(0) =~= models(y@));
    if i == x.len() {
        if i == y.len() { 0 } else { -1 }
    } else {
        1
    }
}

fn compare_entry_vecs(x: &Vec<(Edn, Edn)>, y: &Vec<(Edn, Edn)>) -> (r: i8)
    ensures
        r as int == compare_entries(entry_models(x@), entry_models(y@)),
    decreases x,
{
    proof {
        lemma_entry_models(x@);
        lemma_entry_models(y@);
    }
    let mut i: usize = 0;
    assert(entry_models(x@).skip(0) =~= entry_models(x@));
    assert(entry_models(y@).skip(0) =~= entry_models(y@));
    while i < x.len() && i < y.len()
        invariant
            0 <= i <= x@.len(),
            i <= y@.len(),
            entry_models(x@).len() == x@.len(),
            entry_models(y@).len() == y@.len(),
            forall|j: int| 0 <= j < x@.len() ==> #[trigger] entry_models(x@)[j] == (x@[j].0.model(), x@[j].1.model()),
            forall|j: int| 0 <= j < y@.len() ==> #[trigger] entry_models(y@)[j] == (y@[j].0.model(), y@[j].1.model()),
            compare_entries(entry_models(x@).skip(i as int), entry_models(y@).skip(i as int))
                == compare_entries(entry_models(x@), entry_models(y@)),
        decreases x@.len() - i,
    {
        assert(entry_models(x@).skip(i as int)[0] == entry_models(x@)[i as int]);
        assert(entry_models(y@).skip(i as int)[0] == entry_models(y@)[i as int]);
        let c = compare_edn(&x[i].0, &y[i].0);
        if c != 0 {
            return c;
        }
        let d = compare_edn(&x[i].1, &y[i].1);
        if d != 0 {
            return d;
        }
        assert(entry_models(x@).skip(i as int).drop_first() =~= entry_models(x@).skip(i + 1));
        assert(entry_models(y@).skip(i as int).drop_first() =~= entry_models(y@).skip(i + 1));
        i = i + 1;
    }
    assert(entry_models(x@).skip(0) =~= entry_models(x@));
    assert(entry_models(y@).skip(0) =~= entry_models(y@));
    if i == x.len() {
        if i == y.len() { 0 } else { -1 }
    } else {
        1
    }
}


proof fn lemma_set_insert_skip(s: Seq<EdnValue>, x: EdnValue, i: int)
    requires
        0 <= i <= s.len(),
        forall|j: int| 0 <= j < i ==> compare_values(x, #[trigger] s[j]) > 0,
    ensures
        set_insert(s, x) == s.take(i) + set_insert(s.skip(i), x),
    decreases i,
{
    if i == 0 {
        assert(s.take(0) + set_insert(s.skip(0), x) =~= set_insert(s, x)) by {
            assert(s.skip(0) =~= s);
        }
    } else {
        assert forall|j: int| 0 <= j < i - 1 implies compare_values(x, #[trigger] s.drop_first()[j]) > 0 by {
            assert(s.drop_first()[j] == s[j + 1]);
        }
        lemma_set_insert_skip(s.drop_first(), x, i - 1);
        assert(compare_values(x, s[0]) > 0);
        assert(s.drop_first().skip(i - 1) =~= s.skip(i));
        assert(seq![s[0]] + s.drop_first().take(i - 1) =~= s.take(i));
    }
}

/// Adds `x` to the ascending vector `s` as a set does (see `set_insert`).
pub fn set_add(s: &mut Vec<Edn>, x: Edn)
    ensures
        models(final(s)@) == set_insert(models(old(s)@), x.model()),
{
    proof { lemma_models(s@); }
    let ghost ms = models(s@);
    let mut i: usize = 0;
    while i < s.len() && compare_edn(&x, &s[i]) > 0
        invariant
            0 <= i <= s@.len(),
            ms == models(s@),
            ms.len() == s@.len(),
            forall|j: int| 0 <= j < s@.len() ==> #[trigger] ms[j] == s@[j].model(),
            forall|j: int| 0 <= j < i ==> compare_values(x.model(), #[trigger] ms[j]) > 0,
        decreases s@.len() - i,
    {
        i = i + 1;
    }
    proof {
        lemma_set_insert_skip(ms, x.model(), i as int);
    }
    let c: i8 = if i < s.len() { compare_edn(&x, &s[i]) } else { 1 };
    if i < s.len() && c == 0 {
        assert(ms.skip(i as int)[0] == ms[i as int]);
        assert(set_insert(ms.skip(i as int), x.model()) =~= ms.skip(i as int));
        assert(ms.take(i as int) + ms.skip(i as int) =~= ms);
        return;
    }
    if i < s.len() {
        assert(ms.skip(i as int)[0] == ms[i as int]);
        assert(compare_values(x.model(), ms.skip(i as int)[0]) < 0);
    } else {
        assert(ms.skip(i as int) =~= Seq::<EdnValue>::empty());
    }
    let ghost xm = x.model();
    s.insert(i, x);
    proof {
        lemma_models(s@);
        assert(models(s@) =~= ms.take(i as int) + set_insert(ms.skip(i as int), xm));
    }
}

proof fn lemma_map_insert_skip(s: Seq<(EdnValue, EdnValue)>, k: EdnValue, v: EdnValue, i: int)
    requires
        0 <= i <= s.len(),
        forall|j: int| 0 <= j < i ==> compare_values(k, #[trigger] s[j].0) > 0,
    ensures
        map_insert(s, k, v) == s.take(i) + map_insert(s.skip(i), k, v),
    decreases i,
{
    if i == 0 {
        assert(s.take(0) + map_insert(s.skip(0), k, v) =~= map_insert(s, k, v)) by {
            assert(s.skip(0) =~= s);
        }
    } else {
        assert forall|j: int| 0 <= j < i - 1 implies compare_values(k, #[trigger] s.drop_first()[j].0) > 0 by {
            assert(s.drop_first()[j] == s[j + 1]);
        }
        lemma_map_insert_skip(s.drop_first(), k, v, i - 1);
        assert(compare_values(k, s[0].0) > 0);
        assert(s.drop_first().skip(i - 1) =~= s.skip(i));
        assert(seq![s[0]] + s.drop_first().take(i - 1) =~= s.take(i));
    }
}

/// Adds the entry `(k, v)` to the entries `s`, ascending by key, as a map does
/// (see `map_insert`).
pub fn map_add(s: &mut Vec<(Edn, Edn)>, k: Edn, v: Edn)
    ensures
        entry_models(final(s)@) == map_insert(entry_models(old(s)@), k.model(), v.model()),
{
    proof { lemma_entry_models(s@); }
    let ghost ms = entry_models(s@);
    let mut i: usize = 0;
    while i < s.len() && compare_edn(&k, &s[i].0) > 0
        invariant
            0 <= i <= s@.len(),
            ms == entry_models(s@),
            ms.len() == s@.len(),
            forall|j: int| 0 <= j < s@.len() ==> #[trigger] ms[j] == (s@[j].0.model(), s@[j].1.model()),
            forall|j: int| 0 <= j < i ==> compare_values(k.model(), #[trigger] ms[j].0) > 0,
        decreases s@.len() - i,
    {
        i = i + 1;
    }
    let c: i8 = if i < s.len() { compare_edn(&k, &s[i].0) } else { 1 };
    proof {
        lemma_map_insert_skip(ms, k.model(), v.model(), i as int);
    }
    let ghost km = k.model();
    let ghost vm = v.model();
    if i < s.len() && c == 0 {
        let (old_key, _) = s.remove(i);
        let ghost kept = old_key.model();
        s.insert(i, (old_key, v));
        proof {
            lemma_entry_models(s@);
            assert(ms[i as int].0 == kept);
            assert(ms.skip(i as int)[0] == ms[i as int]);
            assert(ms.skip(i as int).drop_first() =~= ms.skip(i + 1));
            assert(map_insert(ms.skip(i as int), km, vm) =~= seq![(kept, vm)] + ms.skip(i + 1));
            assert(entry_models(s@) =~= ms.take(i as int) + map_insert(ms.skip(i as int), km, vm));
        }
        return;
    }
    if i < s.len() {
        assert(ms.skip(i as int)[0] == ms[i as int]);
        assert(compare_values(km, ms.skip(i as int)[0].0) < 0);
    } else {
        assert(ms.skip(i as int) =~= Seq::<(EdnValue, EdnValue)>::empty());
    }
    s.insert(i, (k, v));
    proof {
        lemma_entry_models(s@);
        assert(entry_models(s@) =~= ms.take(i as int) + map_insert(ms.skip(i as int), km, vm));
    }
}

} // verus!
