//! The EDN value type and its mathematical model.
use vstd::prelude::*;
use crate::bigint::BigInteger;
use crate::laws::{strictly_ascending, keys_ascending, lemma_set_insert_ascending, lemma_map_insert_ascending};
use crate::order::{set_insert, map_insert, set_add, map_add};

verus! {

/// A decimal number `unscaled × 10^(-scale)`, the pair that `BigDecimal` holds.
#[derive(Debug, PartialEq, Eq, Hash)]
pub struct Decimal {
    pub(crate) unscaled: BigInteger,
    pub(crate) scale: i64,
}

impl Decimal {
    /// The unscaled integer.
    pub closed spec fn unscaled_value(&self) -> int {
        self.unscaled.value()
    }

    /// The scale: the power of ten that the unscaled integer is divided by.
    pub closed spec fn scale_value(&self) -> int {
        self.scale as int
    }

    /// The decimal `unscaled × 10^(-scale)`.
    pub fn new(unscaled: BigInteger, scale: i64) -> (r: Decimal)
        ensures
            r.unscaled_value() == unscaled.value(),
            r.scale_value() == scale as int,
    {
        Decimal { unscaled, scale }
    }

    /// The unscaled integer.
    pub fn unscaled(&self) -> (r: &BigInteger)
        ensures
            r.value() == self.unscaled_value(),
    {
        &self.unscaled
    }

    /// The scale.
    pub fn scale(&self) -> (r: i64)
        ensures
            r as int == self.scale_value(),
    {
        self.scale
    }
}

/// A finite float, held as the exact decimal that its literal writes, without trailing
/// zeros (`1.50` and `15e-1` are the same float).
#[derive(Debug, PartialEq, Eq, Hash)]
pub struct FloatNumber {
    pub(crate) value: Decimal,
}

impl FloatNumber {
    /// The exact decimal value: the unscaled integer and the scale.
    pub closed spec fn decimal_of(&self) -> (int, int) {
        (self.value.unscaled_value(), self.value.scale_value())
    }

    /// The float of exact value `value`.
    pub fn new(value: Decimal) -> (r: FloatNumber)
        ensures
            r.decimal_of() == (value.unscaled_value(), value.scale_value()),
    {
        FloatNumber { value }
    }

    /// The exact decimal value of the float.
    pub fn value(&self) -> (r: &Decimal)
        ensures
            (r.unscaled_value(), r.scale_value()) == self.decimal_of(),
    {
        &self.value
    }
}

/// A float: negative infinity, a finite float, infinity or NaN, in the order that EDN
/// values use.
#[derive(Debug, PartialEq, Eq, Hash)]
pub enum FloatValue {
    NegInfinity,
    Finite(FloatNumber),
    Infinity,
    NaN,
}

/// The model of a float; a finite one by its unscaled integer and scale.
pub enum FloatModel {
    NegInfinity,
    Finite(int, int),
    Infinity,
    NaN,
}

impl FloatValue {
    /// The float's model.
    pub open spec fn model(&self) -> FloatModel {
        match self {
            FloatValue::NegInfinity => FloatModel::NegInfinity,
            FloatValue::Finite(f) => FloatModel::Finite(f.decimal_of().0, f.decimal_of().1),
            FloatValue::Infinity => FloatModel::Infinity,
            FloatValue::NaN => FloatModel::NaN,
        }
    }
}

/// A ratio in lowest terms with a positive denominator, as `BigRational` holds one.
#[derive(Debug, PartialEq, Eq, Hash)]
pub struct Ratio {
    pub(crate) numer: BigInteger,
    pub(crate) denom: BigInteger,
}

impl Ratio {
    #[verifier::type_invariant]
    spec fn positive_denominator(&self) -> bool {
        self.denom.value() > 0
    }

    /// The numerator.
    pub closed spec fn numer_value(&self) -> int {
        self.numer.value()
    }

    /// The denominator.
    pub closed spec fn denom_value(&self) -> int {
        self.denom.value()
    }

    /// The ratio `numer / denom`, kept as given (the caller reduces it).
    pub fn new(numer: BigInteger, denom: BigInteger) -> (r: Ratio)
        requires
            denom.value() > 0,
        ensures
            r.numer_value() == numer.value(),
            r.denom_value() == denom.value(),
    {
        Ratio { numer, denom }
    }

    /// The numerator.
    pub fn numer(&self) -> (r: &BigInteger)
        ensures
            r.value() == self.numer_value(),
    {
        &self.numer
    }

    /// The denominator.
    pub fn denom(&self) -> (r: &BigInteger)
        ensures
            r.value() == self.denom_value(),
            r.value() > 0,
    {
        proof { use_type_invariant(self); }
        &self.denom
    }
}

/// A value read from EDN text.
#[derive(Debug, PartialEq, Eq, Hash)]
pub enum Edn {
    Nil,
    Bool(bool),
    String(String),
    Char(char),
    Symbol(String),
    Keyword(String),
    Int(i64),
    BigInt(BigInteger),
    Float(FloatValue),
    BigDecimal(Decimal),
    BigRational(Ratio),
    List(Vec<Edn>),
    Vec(Vec<Edn>),
    SetOf(EdnSet),
    MapOf(EdnMap),
    TaggedElement(String, Box<Edn>),
}

/// A set of values: its items in ascending order (`compare_values`), each once.
#[derive(Debug, PartialEq, Eq, Hash)]
pub struct EdnSet {
    pub(crate) items: Vec<Edn>,
}

/// A map: its entries in ascending order of keys (`compare_values`), each key once.
#[derive(Debug, PartialEq, Eq, Hash)]
pub struct EdnMap {
    pub(crate) entries: Vec<(Edn, Edn)>,
}

/// The model of an EDN value: text as character sequences, integers as `int`, a decimal
/// as its unscaled integer and scale, a ratio as its numerator and denominator, sets as strictly ascending sequences, maps as sequences of entries in ascending key order.
pub enum EdnValue {
    Nil,
    Bool(bool),
    Str(Seq<char>),
    Char(char),
    Symbol(Seq<char>),
    Keyword(Seq<char>),
    Int(int),
    BigInt(int),
    Float(FloatModel),
    Decimal(int, int),
    Ratio(int, int),
    List(Seq<EdnValue>),
    Vector(Seq<EdnValue>),
    SetOf(Seq<EdnValue>),
    MapOf(Seq<(EdnValue, EdnValue)>),
    Tagged(Seq<char>, Box<EdnValue>),
}

impl Edn {
    /// The value's model.
    pub open spec fn model(&self) -> EdnValue
        decreases self,
    {
        match self {
            Edn::Nil => EdnValue::Nil,
            Edn::Bool(b) => EdnValue::Bool(*b),
            Edn::String(s) => EdnValue::Str(s@),
            Edn::Char(c) => EdnValue::Char(*c),
            Edn::Symbol(s) => EdnValue::Symbol(s@),
            Edn::Keyword(s) => EdnValue::Keyword(s@),
            Edn::Int(n) => EdnValue::Int(*n as int),
            Edn::BigInt(b) => EdnValue::BigInt(b.value()),
            Edn::Float(f) => EdnValue::Float(f.model()),
            Edn::BigDecimal(d) => EdnValue::Decimal(d.unscaled_value(), d.scale_value()),
            Edn::BigRational(q) => EdnValue::Ratio(q.numer_value(), q.denom_value()),
            Edn::List(v) => EdnValue::List(models(v@)),
            Edn::Vec(v) => EdnValue::Vector(models(v@)),
            Edn::SetOf(v) => EdnValue::SetOf(v.elements()),
            Edn::MapOf(v) => EdnValue::MapOf(v.entries()),
            Edn::TaggedElement(t, e) => EdnValue::Tagged(t@, Box::new(e.model())),
        }
    }
}

/// The models of a sequence of values.
pub open spec fn models(s: Seq<Edn>) -> Seq<EdnValue>
    decreases s,
{
    if s.len() == 0 {
        Seq::empty()
    } else {
        models(s.drop_last()).push(s.last().model())
    }
}

/// The models of a sequence of map entries.
pub open spec fn entry_models(s: Seq<(Edn, Edn)>) -> Seq<(EdnValue, EdnValue)>
    decreases s,
{
    if s.len() == 0 {
        Seq::empty()
    } else {
        entry_models(s.drop_last()).push((s.last().0.model(), s.last().1.model()))
    }
}


/// `models` maps each element to its model.
pub proof fn lemma_models(s: Seq<Edn>)
    ensures
        models(s).len() == s.len(),
        forall|i: int| 0 <= i < s.len() ==> #[trigger] models(s)[i] == s[i].model(),
    decreases s.len(),
{
    if s.len() > 0 {
        lemma_models(s.drop_last());
        assert forall|i: int| 0 <= i < s.len() implies #[trigger] models(s)[i] == s[i].model() by {
            if i < s.len() - 1 {
                assert(s.drop_last()[i] == s[i]);
            }
        }
    }
}

/// `entry_models` maps each entry to the models of its key and value.
pub proof fn lemma_entry_models(s: Seq<(Edn, Edn)>)
    ensures
        entry_models(s).len() == s.len(),
        forall|i: int| 0 <= i < s.len() ==> #[trigger] entry_models(s)[i] == (s[i].0.model(), s[i].1.model()),
    decreases s.len(),
{
    if s.len() > 0 {
        lemma_entry_models(s.drop_last());
        assert forall|i: int| 0 <= i < s.len() implies #[trigger] entry_models(s)[i] == (s[i].0.model(), s[i].1.model()) by {
            if i < s.len() - 1 {
                assert(s.drop_last()[i] == s[i]);
            }
        }
    }
}


/// Dropping the first element commutes with `models`.
pub proof fn lemma_models_drop_first(s: Seq<Edn>)
    requires
        s.len() > 0,
    ensures
        models(s.drop_first()) == models(s).drop_first(),
{
    lemma_models(s);
    lemma_models(s.drop_first());
    assert(models(s.drop_first()) =~= models(s).drop_first());
}

/// Dropping the first entry commutes with `entry_models`.
pub proof fn lemma_entry_models_drop_first(s: Seq<(Edn, Edn)>)
    requires
        s.len() > 0,
    ensures
        entry_models(s.drop_first()) == entry_models(s).drop_first(),
{
    lemma_entry_models(s);
    lemma_entry_models(s.drop_first());
    assert(entry_models(s.drop_first()) =~= entry_models(s).drop_first());
}


impl EdnSet {
    #[verifier::type_invariant]
    spec fn wf(&self) -> bool {
        strictly_ascending(models(self.items@))
    }

    /// The models of the items, in order.
    pub closed spec fn elements(&self) -> Seq<EdnValue>
        decreases self,
    {
        models(self.items@)
    }

    /// The items, in ascending order, each once.
    pub fn items(&self) -> (r: &Vec<Edn>)
        ensures
            models(r@) == self.elements(),
            strictly_ascending(self.elements()),
    {
        proof { use_type_invariant(self); }
        &self.items
    }

    /// The empty set.
    pub fn new() -> (r: EdnSet)
        ensures
            r.elements() == Seq::<EdnValue>::empty(),
    {
        let r = EdnSet { items: Vec::new() };
        assert(models(r.items@) =~= Seq::<EdnValue>::empty());
        r
    }

    /// The set of the given items, which are in ascending order.
    pub(crate) fn from_ascending(items: Vec<Edn>) -> (r: EdnSet)
        requires
            strictly_ascending(models(items@)),
        ensures
            r.elements() == models(items@),
    {
        EdnSet { items }
    }

    /// Adds `x` as a set does (see `set_insert`): an equal item already there stays.
    pub fn insert(&mut self, x: Edn)
        ensures
            final(self).elements() == set_insert(old(self).elements(), x.model()),
    {
        proof { use_type_invariant(&*self); }
        let mut v: Vec<Edn> = Vec::new();
        assert(models(v@) =~= Seq::<EdnValue>::empty());
        std::mem::swap(&mut v, &mut self.items);
        let ghost before = models(v@);
        set_add(&mut v, x);
        proof { lemma_set_insert_ascending(before, x.model()); }
        self.items = v;
    }

    /// The number of items.
    pub fn len(&self) -> (r: usize)
        ensures
            r == self.elements().len(),
    {
        proof { lemma_models(self.items@); }
        self.items.len()
    }
}

impl EdnMap {
    #[verifier::type_invariant]
    spec fn wf(&self) -> bool {
        keys_ascending(entry_models(self.entries@))
    }

    /// The models of the entries, in order.
    pub closed spec fn entries(&self) -> Seq<(EdnValue, EdnValue)>
        decreases self,
    {
        entry_models(self.entries@)
    }

    /// The entries, in ascending order of keys, each key once.
    pub fn entry_list(&self) -> (r: &Vec<(Edn, Edn)>)
        ensures
            entry_models(r@) == self.entries(),
            keys_ascending(self.entries()),
    {
        proof { use_type_invariant(self); }
        &self.entries
    }

    /// The empty map.
    pub fn new() -> (r: EdnMap)
        ensures
            r.entries() == Seq::<(EdnValue, EdnValue)>::empty(),
    {
        let r = EdnMap { entries: Vec::new() };
        assert(entry_models(r.entries@) =~= Seq::<(EdnValue, EdnValue)>::empty());
        r
    }

    /// The map of the given entries, whose keys are in ascending order.
    pub(crate) fn from_ascending(entries: Vec<(Edn, Edn)>) -> (r: EdnMap)
        requires
            keys_ascending(entry_models(entries@)),
        ensures
            r.entries() == entry_models(entries@),
    {
        EdnMap { entries }
    }

    /// Adds the entry `(k, v)` as a map does (see `map_insert`): where an equal key is
    /// there already, that key stays and its value becomes `v`.
    pub fn insert(&mut self, k: Edn, v: Edn)
        ensures
            final(self).entries() == map_insert(old(self).entries(), k.model(), v.model()),
    {
        proof { use_type_invariant(&*self); }
        let mut es: Vec<(Edn, Edn)> = Vec::new();
        assert(entry_models(es@) =~= Seq::<(EdnValue, EdnValue)>::empty());
        std::mem::swap(&mut es, &mut self.entries);
        let ghost before = entry_models(es@);
        let ghost km = k.model();
        let ghost vm = v.model();
        map_add(&mut es, k, v);
        proof { lemma_map_insert_ascending(before, km, vm); }
        self.entries = es;
    }

    /// The number of entries.
    pub fn len(&self) -> (r: usize)
        ensures
            r == self.entries().len(),
    {
        proof { lemma_entry_models(self.entries@); }
        self.entries.len()
    }
}

/// The elements of a set are the models of its items.
pub(crate) proof fn lemma_set_elements(s: &EdnSet)
    ensures
        s.elements() == models(s.items@),
{
}

/// The entries of a map are the models of its entry list.
pub(crate) proof fn lemma_map_entries(m: &EdnMap)
    ensures
        m.entries() == entry_models(m.entries@),
{
}
} // verus!
