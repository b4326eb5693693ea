//! Laws of the value order, and of the sets and maps built with it.
use vstd::prelude::*;
use crate::bigint::{
    compare_scaled_values, scaled_to, larger, sign, pow10, lemma_pow10_add, lemma_pow10_positive,
};
use crate::edn::{EdnValue, FloatModel};
use crate::order::{
    compare_texts, compare_values, compare_seqs, compare_entries, variant_rank, float_rank,
    compare_ints, compare_decimals, compare_floats, compare_ratios, positive_part,
    set_insert, set_of, map_insert, map_of,
};

verus! {

proof fn lemma_text_reflexive(a: Seq<char>)
    ensures
        compare_texts(a, a) == 0,
    decreases a.len(),
{
    if a.len() > 0 {
        lemma_text_reflexive(a.drop_first());
    }
}

proof fn lemma_text_converse(a: Seq<char>, b: Seq<char>)
    ensures
        compare_texts(a, b) == -compare_texts(b, a),
        -1 <= compare_texts(a, b) <= 1,
        compare_texts(a, b) == 0 ==> a == b,
    decreases a.len(),
{
    if a.len() > 0 && b.len() > 0 && a[0] == b[0] {
        lemma_text_converse(a.drop_first(), b.drop_first());
        if compare_texts(a, b) == 0 {
            assert(a =~= seq![a[0]] + a.drop_first());
            assert(b =~= seq![b[0]] + b.drop_first());
        }
    }
    if a.len() == 0 && b.len() == 0 {
        assert(a =~= b);
    }
}

proof fn lemma_text_transitive(a: Seq<char>, b: Seq<char>, c: Seq<char>)
    requires
        compare_texts(a, b) < 0,
        compare_texts(b, c) < 0,
    ensures
        compare_texts(a, c) < 0,
    decreases a.len(),
{
    if a.len() > 0 && b.len() > 0 && c.len() > 0 && a[0] == b[0] && b[0] == c[0] {
        lemma_text_transitive(a.drop_first(), b.drop_first(), c.drop_first());
    }
}

/// Scaling two decimals to any common number of places at or above both scales
/// compares them as `compare_scaled_values` does.
proof fn lemma_scaled_common(u1: int, s1: int, u2: int, s2: int, n: int)
    requires
        n >= s1,
        n >= s2,
    ensures
        compare_scaled_values(u1, s1, u2, s2) == sign(scaled_to(u1, s1, n) - scaled_to(u2, s2, n)),
{
    let m = larger(s1, s2);
    let k = (n - m) as nat;
    lemma_pow10_add((m - s1) as nat, k);
    lemma_pow10_add((m - s2) as nat, k);
    assert(((m - s1) as nat + k) as int == n - s1);
    assert(((m - s2) as nat + k) as int == n - s2);
    lemma_pow10_positive(k);
    let a = scaled_to(u1, s1, m);
    let b = scaled_to(u2, s2, m);
    let p = pow10(k);
    let q1 = pow10((m - s1) as nat);
    let q2 = pow10((m - s2) as nat);
    assert(u1 * (q1 * p) == (u1 * q1) * p) by (nonlinear_arith);
    assert(u2 * (q2 * p) == (u2 * q2) * p) by (nonlinear_arith);
    assert(sign(a * p - b * p) == sign(a - b)) by (nonlinear_arith)
        requires p >= 1;
}

proof fn lemma_decimal_converse(u1: int, s1: int, u2: int, s2: int)
    ensures
        compare_decimals(u1, s1, u2, s2) == -compare_decimals(u2, s2, u1, s1),
        -1 <= compare_decimals(u1, s1, u2, s2) <= 1,
        compare_decimals(u1, s1, u2, s2) == 0 ==> u1 == u2 && s1 == s2,
{
    assert(larger(s1, s2) == larger(s2, s1));
    if compare_decimals(u1, s1, u2, s2) == 0 {
        assert(pow10(0) == 1);
        assert(((s1 - s1) as nat) == 0);
        assert(u1 * 1 == u1 && u2 * 1 == u2);
    }
}

proof fn lemma_decimal_transitive(u1: int, s1: int, u2: int, s2: int, u3: int, s3: int)
    requires
        compare_decimals(u1, s1, u2, s2) < 0,
        compare_decimals(u2, s2, u3, s3) < 0,
    ensures
        compare_decimals(u1, s1, u3, s3) < 0,
{
    let n = larger(larger(s1, s2), s3);
    lemma_scaled_common(u1, s1, u2, s2, n);
    lemma_scaled_common(u2, s2, u3, s3, n);
    lemma_scaled_common(u1, s1, u3, s3, n);
}

proof fn lemma_float_converse(x: FloatModel, y: FloatModel)
    ensures
        compare_floats(x, y) == -compare_floats(y, x),
        -1 <= compare_floats(x, y) <= 1,
        compare_floats(x, y) == 0 ==> x == y,
{
    match (x, y) {
        (FloatModel::Finite(u1, s1), FloatModel::Finite(u2, s2)) => lemma_decimal_converse(u1, s1, u2, s2),
        _ => {},
    }
}

proof fn lemma_float_transitive(x: FloatModel, y: FloatModel, z: FloatModel)
    requires
        compare_floats(x, y) < 0,
        compare_floats(y, z) < 0,
    ensures
        compare_floats(x, z) < 0,
{
    match (x, y, z) {
        (FloatModel::Finite(u1, s1), FloatModel::Finite(u2, s2), FloatModel::Finite(u3, s3)) =>
            lemma_decimal_transitive(u1, s1, u2, s2, u3, s3),
        _ => {},
    }
}

proof fn lemma_ratio_converse(p1: int, q1: int, p2: int, q2: int)
    ensures
        compare_ratios(p1, q1, p2, q2) == -compare_ratios(p2, q2, p1, q1),
        -1 <= compare_ratios(p1, q1, p2, q2) <= 1,
        compare_ratios(p1, q1, p2, q2) == 0 ==> p1 == p2 && q1 == q2,
{
}

proof fn lemma_ratio_transitive(p1: int, q1: int, p2: int, q2: int, p3: int, q3: int)
    requires
        compare_ratios(p1, q1, p2, q2) < 0,
        compare_ratios(p2, q2, p3, q3) < 0,
    ensures
        compare_ratios(p1, q1, p3, q3) < 0,
{
    let d1 = positive_part(q1);
    let d2 = positive_part(q2);
    let d3 = positive_part(q3);
    let x1 = p1 * d2 * d3;
    let x2 = p2 * d1 * d3;
    let x3 = p3 * d1 * d2;
    assert(sign(p1 * d2 - p2 * d1) == sign(x1 - x2)) by (nonlinear_arith)
        requires d3 >= 1, x1 == p1 * d2 * d3, x2 == p2 * d1 * d3;
    assert(sign(p2 * d3 - p3 * d2) == sign(x2 - x3)) by (nonlinear_arith)
        requires d1 >= 1, x2 == p2 * d1 * d3, x3 == p3 * d1 * d2;
    assert(sign(p1 * d3 - p3 * d1) == sign(x1 - x3)) by (nonlinear_arith)
        requires d2 >= 1, x1 == p1 * d2 * d3, x3 == p3 * d1 * d2;
}


proof fn lemma_value_reflexive(a: EdnValue)
    ensures
        compare_values(a, a) == 0,
    decreases a,
{
    match a {
        EdnValue::Str(x) => lemma_text_reflexive(x),
        EdnValue::Symbol(x) => lemma_text_reflexive(x),
        EdnValue::Keyword(x) => lemma_text_reflexive(x),
        EdnValue::List(xs) => lemma_seq_reflexive(xs),
        EdnValue::Vector(xs) => lemma_seq_reflexive(xs),
        EdnValue::SetOf(xs) => lemma_seq_reflexive(xs),
        EdnValue::MapOf(es) => lemma_entries_reflexive(es),
        EdnValue::Tagged(t, x) => {
            lemma_text_reflexive(t);
            lemma_value_reflexive(*x);
        },
        _ => {},
    }
}

proof fn lemma_seq_reflexive(xs: Seq<EdnValue>)
    ensures
        compare_seqs(xs, xs) == 0,
    decreases xs,
{
    if xs.len() > 0 {
        lemma_value_reflexive(xs[0]);
        lemma_seq_reflexive(xs.drop_first());
    }
}

proof fn lemma_entries_reflexive(es: Seq<(EdnValue, EdnValue)>)
    ensures
        compare_entries(es, es) == 0,
    decreases es,
{
    if es.len() > 0 {
        lemma_value_reflexive(es[0].0);
        lemma_value_reflexive(es[0].1);
        lemma_entries_reflexive(es.drop_first());
    }
}

proof fn lemma_value_converse(a: EdnValue, b: EdnValue)
    ensures
        compare_values(a, b) == -compare_values(b, a),
        -1 <= compare_values(a, b) <= 1,
        compare_values(a, b) == 0 ==> a == b,
    decreases a,
{
    if variant_rank(a) == variant_rank(b) {
        match (a, b) {
            (EdnValue::Str(x), EdnValue::Str(y)) => lemma_text_converse(x, y),
            (EdnValue::Symbol(x), EdnValue::Symbol(y)) => lemma_text_converse(x, y),
            (EdnValue::Keyword(x), EdnValue::Keyword(y)) => lemma_text_converse(x, y),
            (EdnValue::List(x), EdnValue::List(y)) => lemma_seq_converse(x, y),
            (EdnValue::Vector(x), EdnValue::Vector(y)) => lemma_seq_converse(x, y),
            (EdnValue::SetOf(x), EdnValue::SetOf(y)) => lemma_seq_converse(x, y),
            (EdnValue::MapOf(x), EdnValue::MapOf(y)) => lemma_entries_converse(x, y),
            (EdnValue::Tagged(t, x), EdnValue::Tagged(u, y)) => {
                lemma_text_converse(t, u);
                lemma_value_converse(*x, *y);
            },
            (EdnValue::Float(x), EdnValue::Float(y)) => lemma_float_converse(x, y),
            (EdnValue::Decimal(u1, s1), EdnValue::Decimal(u2, s2)) => lemma_decimal_converse(u1, s1, u2, s2),
            (EdnValue::Ratio(p1, q1), EdnValue::Ratio(p2, q2)) => lemma_ratio_converse(p1, q1, p2, q2),
            _ => {},
        }
    }
}

proof fn lemma_seq_converse(xs: Seq<EdnValue>, ys: Seq<EdnValue>)
    ensures
        compare_seqs(xs, ys) == -compare_seqs(ys, xs),
        -1 <= compare_seqs(xs, ys) <= 1,
        compare_seqs(xs, ys) == 0 ==> xs == ys,
    decreases xs,
{
    if xs.len() > 0 && ys.len() > 0 {
        lemma_value_converse(xs[0], ys[0]);
        if compare_values(xs[0], ys[0]) == 0 {
            lemma_seq_converse(xs.drop_first(), ys.drop_first());
            if compare_seqs(xs, ys) == 0 {
                assert(xs =~= seq![xs[0]] + xs.drop_first());
                assert(ys =~= seq![ys[0]] + ys.drop_first());
            }
        }
    }
    if xs.len() == 0 && ys.len() == 0 {
        assert(xs =~= ys);
    }
}

proof fn lemma_entries_converse(xs: Seq<(EdnValue, EdnValue)>, ys: Seq<(EdnValue, EdnValue)>)
    ensures
        compare_entries(xs, ys) == -compare_entries(ys, xs),
        -1 <= compare_entries(xs, ys) <= 1,
        compare_entries(xs, ys) == 0 ==> xs == ys,
    decreases xs,
{
    if xs.len() > 0 && ys.len() > 0 {
        lemma_value_converse(xs[0].0, ys[0].0);
        lemma_value_converse(xs[0].1, ys[0].1);
        if compare_values(xs[0].0, ys[0].0) == 0 && compare_values(xs[0].1, ys[0].1) == 0 {
            lemma_entries_converse(xs.drop_first(), ys.drop_first());
            if compare_entries(xs, ys) == 0 {
                assert(xs =~= seq![xs[0]] + xs.drop_first());
                assert(ys =~= seq![ys[0]] + ys.drop_first());
            }
        }
    }
    if xs.len() == 0 && ys.len() == 0 {
        assert(xs =~= ys);
    }
}

proof fn lemma_value_transitive(a: EdnValue, b: EdnValue, c: EdnValue)
    requires
        compare_values(a, b) < 0,
        compare_values(b, c) < 0,
    ensures
        compare_values(a, c) < 0,
    decreases a,
{
    if variant_rank(a) == variant_rank(b) && variant_rank(b) == variant_rank(c) {
        match (a, b, c) {
            (EdnValue::Str(x), EdnValue::Str(y), EdnValue::Str(z)) => lemma_text_transitive(x, y, z),
            (EdnValue::Symbol(x), EdnValue::Symbol(y), EdnValue::Symbol(z)) => lemma_text_transitive(x, y, z),
            (EdnValue::Keyword(x), EdnValue::Keyword(y), EdnValue::Keyword(z)) => lemma_text_transitive(x, y, z),
            (EdnValue::List(x), EdnValue::List(y), EdnValue::List(z)) => lemma_seq_transitive(x, y, z),
            (EdnValue::Vector(x), EdnValue::Vector(y), EdnValue::Vector(z)) => lemma_seq_transitive(x, y, z),
            (EdnValue::SetOf(x), EdnValue::SetOf(y), EdnValue::SetOf(z)) => lemma_seq_transitive(x, y, z),
            (EdnValue::MapOf(x), EdnValue::MapOf(y), EdnValue::MapOf(z)) => lemma_entries_transitive(x, y, z),
            (EdnValue::Float(x), EdnValue::Float(y), EdnValue::Float(z)) => lemma_float_transitive(x, y, z),
            (EdnValue::Decimal(u1, s1), EdnValue::Decimal(u2, s2), EdnValue::Decimal(u3, s3)) =>
                lemma_decimal_transitive(u1, s1, u2, s2, u3, s3),
            (EdnValue::Ratio(p1, q1), EdnValue::Ratio(p2, q2), EdnValue::Ratio(p3, q3)) =>
                lemma_ratio_transitive(p1, q1, p2, q2, p3, q3),
            (EdnValue::Tagged(t, x), EdnValue::Tagged(u, y), EdnValue::Tagged(v, z)) => {
                lemma_text_converse(t, u);
                lemma_text_converse(u, v);
                if compare_texts(t, u) < 0 && compare_texts(u, v) < 0 {
                    lemma_text_transitive(t, u, v);
                } else if compare_texts(t, u) == 0 && compare_texts(u, v) == 0 {
                    lemma_value_transitive(*x, *y, *z);
                }
            },
            _ => {},
        }
    }
}

proof fn lemma_head_order(x: EdnValue, y: EdnValue, z: EdnValue)
    requires
        compare_values(x, y) <= 0,
        compare_values(y, z) <= 0,
        compare_values(x, y) < 0 || compare_values(y, z) < 0,
    ensures
        compare_values(x, z) < 0,
{
    lemma_value_converse(x, y);
    lemma_value_converse(y, z);
    if compare_values(x, y) < 0 && compare_values(y, z) < 0 {
        lemma_value_transitive(x, y, z);
    }
}

proof fn lemma_seq_transitive(xs: Seq<EdnValue>, ys: Seq<EdnValue>, zs: Seq<EdnValue>)
    requires
        compare_seqs(xs, ys) < 0,
        compare_seqs(ys, zs) < 0,
    ensures
        compare_seqs(xs, zs) < 0,
    decreases xs,
{
    if xs.len() > 0 && ys.len() > 0 && zs.len() > 0 {
        let c1 = compare_values(xs[0], ys[0]);
        let c2 = compare_values(ys[0], zs[0]);
        lemma_value_converse(xs[0], ys[0]);
        lemma_value_converse(ys[0], zs[0]);
        if c1 == 0 && c2 == 0 {
            lemma_seq_transitive(xs.drop_first(), ys.drop_first(), zs.drop_first());
        } else if c1 < 0 && c2 < 0 {
            lemma_value_transitive(xs[0], ys[0], zs[0]);
        }
    }
}

proof fn lemma_entries_transitive(xs: Seq<(EdnValue, EdnValue)>, ys: Seq<(EdnValue, EdnValue)>, zs: Seq<(EdnValue, EdnValue)>)
    requires
        compare_entries(xs, ys) < 0,
        compare_entries(ys, zs) < 0,
    ensures
        compare_entries(xs, zs) < 0,
    decreases xs,
{
    if xs.len() > 0 && ys.len() > 0 && zs.len() > 0 {
        let k1 = compare_values(xs[0].0, ys[0].0);
        let k2 = compare_values(ys[0].0, zs[0].0);
        lemma_value_converse(xs[0].0, ys[0].0);
        lemma_value_converse(ys[0].0, zs[0].0);
        lemma_value_converse(xs[0].1, ys[0].1);
        lemma_value_converse(ys[0].1, zs[0].1);
        if k1 < 0 && k2 < 0 {
            lemma_value_transitive(xs[0].0, ys[0].0, zs[0].0);
        } else if k1 == 0 && k2 == 0 {
            let v1 = compare_values(xs[0].1, ys[0].1);
            let v2 = compare_values(ys[0].1, zs[0].1);
            if v1 == 0 && v2 == 0 {
                lemma_entries_transitive(xs.drop_first(), ys.drop_first(), zs.drop_first());
            } else if v1 < 0 && v2 < 0 {
                lemma_value_transitive(xs[0].1, ys[0].1, zs[0].1);
            }
        }
    }
}

/// The order of values is a total order: every value equals itself, swapping the
/// arguments negates the result, only equal values compare equal, and the order is
/// transitive (where `a` comes before `b` and `b` before `c`, `a` comes before `c`).
pub proof fn law_total_order(a: EdnValue, b: EdnValue, c: EdnValue)
    ensures
        compare_values(a, a) == 0,
        compare_values(a, b) == -compare_values(b, a),
        compare_values(a, b) == 0 <==> a == b,
        compare_values(a, b) < 0 && compare_values(b, c) < 0 ==> compare_values(a, c) < 0,
        compare_values(a, b) <= 0 && compare_values(b, c) <= 0 ==> compare_values(a, c) <= 0,
{
    lemma_value_reflexive(a);
    lemma_value_converse(a, b);
    lemma_value_converse(b, c);
    lemma_value_converse(a, c);
    if compare_values(a, b) < 0 && compare_values(b, c) < 0 {
        lemma_value_transitive(a, b, c);
    }
    if compare_values(a, b) <= 0 && compare_values(b, c) <= 0 {
        if compare_values(a, b) < 0 || compare_values(b, c) < 0 {
            lemma_head_order(a, b, c);
        } else {
            lemma_value_reflexive(c);
        }
    }
}


/// Each value comes before the ones after it.
pub open spec fn strictly_ascending(s: Seq<EdnValue>) -> bool {
    forall|i: int, j: int| 0 <= i < j < s.len() ==> compare_values(#[trigger] s[i], #[trigger] s[j]) < 0
}

/// Each key comes before the keys after it.
pub open spec fn keys_ascending(es: Seq<(EdnValue, EdnValue)>) -> bool {
    forall|i: int, j: int| 0 <= i < j < es.len() ==> compare_values(#[trigger] es[i].0, #[trigger] es[j].0) < 0
}

/// The value of the first entry with key `k`.
pub open spec fn lookup(es: Seq<(EdnValue, EdnValue)>, k: EdnValue) -> Option<EdnValue>
    decreases es.len(),
{
    if es.len() == 0 {
        None
    } else if es[0].0 == k {
        Some(es[0].1)
    } else {
        lookup(es.drop_first(), k)
    }
}

/// The value of the last entry with key `k`.
pub open spec fn last_value(es: Seq<(EdnValue, EdnValue)>, k: EdnValue) -> Option<EdnValue>
    decreases es.len(),
{
    if es.len() == 0 {
        None
    } else if es.last().0 == k {
        Some(es.last().1)
    } else {
        last_value(es.drop_last(), k)
    }
}

#[verifier::spinoff_prover]
#[verifier::rlimit(40)]
proof fn lemma_set_insert(s: Seq<EdnValue>, x: EdnValue)
    requires
        strictly_ascending(s),
    ensures
        strictly_ascending(set_insert(s, x)),
        forall|y: EdnValue| #[trigger] set_insert(s, x).contains(y) <==> (s.contains(y) || y == x),
    decreases s.len(),
{
    let r = set_insert(s, x);
    if s.len() == 0 {
        assert forall|y: EdnValue| r.contains(y) <==> (s.contains(y) || y == x) by {
            if r.contains(y) {
                assert(r[0] == x);
            }
            if y == x {
                assert(r[0] == y);
            }
        }
    } else {
        let c = compare_values(x, s[0]);
        law_total_order(x, s[0], s[0]);
        if c < 0 {
            assert forall|i: int, j: int| 0 <= i < j < r.len() implies compare_values(#[trigger] r[i], #[trigger] r[j]) < 0 by {
                if i == 0 {
                    assert(r[j] == s[j - 1]);
                    if j - 1 > 0 {
                        assert(compare_values(s[0], s[j - 1]) < 0);
                        law_total_order(x, s[0], s[j - 1]);
                    }
                } else {
                    assert(r[i] == s[i - 1] && r[j] == s[j - 1]);
                }
            }
            assert forall|y: EdnValue| r.contains(y) <==> (s.contains(y) || y == x) by {
                if r.contains(y) {
                    let i = choose|i: int| 0 <= i < r.len() && r[i] == y;
                    if i > 0 {
                        assert(s[i - 1] == y);
                    }
                }
                if s.contains(y) {
                    let i = choose|i: int| 0 <= i < s.len() && s[i] == y;
                    assert(r[i + 1] == y);
                }
                if y == x {
                    assert(r[0] == y);
                }
            }
        } else if c == 0 {
            assert(s.contains(x)) by {
                assert(s[0] == x);
            }
        } else {
            let t = s.drop_first();
            assert(strictly_ascending(t)) by {
                assert forall|i: int, j: int| 0 <= i < j < t.len() implies compare_values(#[trigger] t[i], #[trigger] t[j]) < 0 by {
                    assert(t[i] == s[i + 1] && t[j] == s[j + 1]);
                }
            }
            lemma_set_insert(t, x);
            let rt = set_insert(t, x);
            assert(r == seq![s[0]] + rt);
            law_total_order(s[0], x, x);
            assert forall|i: int, j: int| 0 <= i < j < r.len() implies compare_values(#[trigger] r[i], #[trigger] r[j]) < 0 by {
                if i == 0 {
                    assert(r[j] == rt[j - 1]);
                    assert(rt.contains(rt[j - 1]));
                    if rt[j - 1] != x {
                        assert(t.contains(rt[j - 1]));
                        let k = choose|k: int| 0 <= k < t.len() && t[k] == rt[j - 1];
                        assert(s[k + 1] == t[k]);
                    }
                } else {
                    assert(r[i] == rt[i - 1] && r[j] == rt[j - 1]);
                }
            }
            assert forall|y: EdnValue| r.contains(y) <==> (s.contains(y) || y == x) by {
                if r.contains(y) {
                    let i = choose|i: int| 0 <= i < r.len() && r[i] == y;
                    if i > 0 {
                        assert(rt[i - 1] == y);
                        assert(rt.contains(y));
                        if t.contains(y) {
                            let k = choose|k: int| 0 <= k < t.len() && t[k] == y;
                            assert(s[k + 1] == y);
                        }
                    } else {
                        assert(s[0] == y);
                    }
                }
                if s.contains(y) {
                    let i = choose|i: int| 0 <= i < s.len() && s[i] == y;
                    if i == 0 {
                        assert(r[0] == y);
                    } else {
                        assert(t[i - 1] == y);
                        assert(t.contains(y));
                        assert(rt.contains(y));
                        let k = choose|k: int| 0 <= k < rt.len() && rt[k] == y;
                        assert(r[k + 1] == y);
                    }
                }
                if y == x {
                    assert(t.contains(y) || y == x);
                    assert(rt.contains(y));
                    let k = choose|k: int| 0 <= k < rt.len() && rt[k] == y;
                    assert(r[k + 1] == y);
                }
            }
        }
    }
}

/// The set built from the items read holds each item once, in ascending order: it is
/// strictly ascending and holds exactly the values among the items.
pub proof fn law_set_of(items: Seq<EdnValue>)
    ensures
        strictly_ascending(set_of(items)),
        forall|y: EdnValue| set_of(items).contains(y) <==> items.contains(y),
    decreases items.len(),
{
    if items.len() > 0 {
        let front = items.drop_last();
        law_set_of(front);
        lemma_set_insert(set_of(front), items.last());
        assert forall|y: EdnValue| set_of(items).contains(y) <==> items.contains(y) by {
            if front.contains(y) {
                let i = choose|i: int| 0 <= i < front.len() && front[i] == y;
                assert(items[i] == y);
            }
            if items.contains(y) {
                let i = choose|i: int| 0 <= i < items.len() && items[i] == y;
                if i < items.len() - 1 {
                    assert(front[i] == y);
                }
            }
        }
    }
}

proof fn lemma_map_insert(s: Seq<(EdnValue, EdnValue)>, k: EdnValue, v: EdnValue)
    requires
        keys_ascending(s),
    ensures
        keys_ascending(map_insert(s, k, v)),
        forall|k2: EdnValue| #[trigger] lookup(map_insert(s, k, v), k2) == if k2 == k {
            Some(v)
        } else {
            lookup(s, k2)
        },
        forall|i: int| 0 <= i < map_insert(s, k, v).len() ==> (#[trigger] map_insert(s, k, v)[i]).0 == k
            || exists|j: int| 0 <= j < s.len() && s[j].0 == map_insert(s, k, v)[i].0,
    decreases s.len(),
{
    let r = map_insert(s, k, v);
    if s.len() == 0 {
        assert forall|k2: EdnValue| #[trigger] lookup(r, k2) == if k2 == k { Some(v) } else { lookup(s, k2) } by {
            assert(r.drop_first() =~= Seq::<(EdnValue, EdnValue)>::empty());
            assert(lookup(r.drop_first(), k2) == None::<EdnValue>);
        }
    } else {
        let c = compare_values(k, s[0].0);
        law_total_order(k, s[0].0, s[0].0);
        if c < 0 {
            assert(r.drop_first() =~= s);
            assert forall|i: int, j: int| 0 <= i < j < r.len() implies compare_values(#[trigger] r[i].0, #[trigger] r[j].0) < 0 by {
                if i == 0 {
                    assert(r[j] == s[j - 1]);
                    if j - 1 > 0 {
                        assert(compare_values(s[0].0, s[j - 1].0) < 0);
                        law_total_order(k, s[0].0, s[j - 1].0);
                    }
                } else {
                    assert(r[i] == s[i - 1] && r[j] == s[j - 1]);
                }
            }
            assert forall|k2: EdnValue| #[trigger] lookup(r, k2) == if k2 == k { Some(v) } else { lookup(s, k2) } by {
            }
            assert forall|i: int| 0 <= i < r.len() implies (#[trigger] r[i]).0 == k || exists|j: int| 0 <= j < s.len() && s[j].0 == r[i].0 by {
                if i > 0 {
                    assert(s[i - 1] == r[i]);
                }
            }
        } else if c == 0 {
            assert(r.drop_first() =~= s.drop_first());
            assert(s[0].0 == k);
            assert forall|i: int, j: int| 0 <= i < j < r.len() implies compare_values(#[trigger] r[i].0, #[trigger] r[j].0) < 0 by {
                assert(r[j] == s[j]);
                if i > 0 {
                    assert(r[i] == s[i]);
                }
            }
            assert forall|k2: EdnValue| #[trigger] lookup(r, k2) == if k2 == k { Some(v) } else { lookup(s, k2) } by {
            }
            assert forall|i: int| 0 <= i < r.len() implies (#[trigger] r[i]).0 == k || exists|j: int| 0 <= j < s.len() && s[j].0 == r[i].0 by {
                if i > 0 {
                    assert(s[i] == r[i]);
                }
            }
        } else {
            let t = s.drop_first();
            assert(keys_ascending(t)) by {
                assert forall|i: int, j: int| 0 <= i < j < t.len() implies compare_values(#[trigger] t[i].0, #[trigger] t[j].0) < 0 by {
                    assert(t[i] == s[i + 1] && t[j] == s[j + 1]);
                }
            }
            lemma_map_insert(t, k, v);
            let rt = map_insert(t, k, v);
            assert(r == seq![s[0]] + rt);
            assert(r.drop_first() =~= rt);
            law_total_order(s[0].0, k, k);
            assert forall|i: int, j: int| 0 <= i < j < r.len() implies compare_values(#[trigger] r[i].0, #[trigger] r[j].0) < 0 by {
                if i == 0 {
                    assert(r[j] == rt[j - 1]);
                    if rt[j - 1].0 != k {
                        let m = choose|m: int| 0 <= m < t.len() && t[m].0 == rt[j - 1].0;
                        assert(s[m + 1] == t[m]);
                    }
                } else {
                    assert(r[i] == rt[i - 1] && r[j] == rt[j - 1]);
                }
            }
            assert forall|k2: EdnValue| #[trigger] lookup(r, k2) == if k2 == k { Some(v) } else { lookup(s, k2) } by {
                assert(lookup(rt, k2) == if k2 == k { Some(v) } else { lookup(t, k2) });
            }
            assert forall|i: int| 0 <= i < r.len() implies (#[trigger] r[i]).0 == k || exists|j: int| 0 <= j < s.len() && s[j].0 == r[i].0 by {
                if i > 0 {
                    assert(r[i] == rt[i - 1]);
                    if rt[i - 1].0 != k {
                        let m = choose|m: int| 0 <= m < t.len() && t[m].0 == rt[i - 1].0;
                        assert(s[m + 1] == t[m]);
                    }
                } else {
                    assert(s[0] == r[0]);
                }
            }
        }
    }
}

/// The map built from the entries read keeps its keys in ascending order, each once,
/// and gives each key the value of the last entry with that key.
pub proof fn law_map_of(es: Seq<(EdnValue, EdnValue)>)
    ensures
        keys_ascending(map_of(es)),
        forall|k: EdnValue| #[trigger] lookup(map_of(es), k) == last_value(es, k),
    decreases es.len(),
{
    if es.len() > 0 {
        let front = es.drop_last();
        law_map_of(front);
        lemma_map_insert(map_of(front), es.last().0, es.last().1);
        assert forall|k: EdnValue| #[trigger] lookup(map_of(es), k) == last_value(es, k) by {
            assert(lookup(map_of(front), k) == last_value(front, k));
        }
    }
}


/// Inserting into an ascending set keeps it ascending.
pub proof fn lemma_set_insert_ascending(s: Seq<EdnValue>, x: EdnValue)
    requires
        strictly_ascending(s),
    ensures
        strictly_ascending(set_insert(s, x)),
{
    lemma_set_insert(s, x);
}

/// Inserting into a map whose keys ascend keeps them ascending.
pub proof fn lemma_map_insert_ascending(s: Seq<(EdnValue, EdnValue)>, k: EdnValue, v: EdnValue)
    requires
        keys_ascending(s),
    ensures
        keys_ascending(map_insert(s, k, v)),
{
    lemma_map_insert(s, k, v);
}
} // verus!

verus! {

proof fn lemma_text_prefix(a: Seq<char>, b: Seq<char>)
    requires
        a.len() < b.len(),
        b.take(a.len() as int) == a,
    ensures
        compare_texts(a, b) == -1,
    decreases a.len(),
{
    if a.len() > 0 {
        assert(b[0] == b.take(a.len() as int)[0]);
        assert(b.drop_first().take(a.drop_first().len() as int) =~= a.drop_first()) by {
            assert forall|j: int| 0 <= j < a.drop_first().len() implies #[trigger] b.drop_first().take(a.drop_first().len() as int)[j] == a.drop_first()[j] by {
                assert(b.take(a.len() as int)[j + 1] == b[j + 1]);
            }
        }
        lemma_text_prefix(a.drop_first(), b.drop_first());
    }
}

proof fn lemma_text_first_difference(a: Seq<char>, b: Seq<char>, k: int)
    requires
        0 <= k < a.len(),
        k < b.len(),
        a.take(k) == b.take(k),
        a[k] < b[k],
    ensures
        compare_texts(a, b) == -1,
    decreases k,
{
    if k > 0 {
        assert(a[0] == a.take(k)[0]);
        assert(b[0] == b.take(k)[0]);
        assert(a.drop_first().take(k - 1) =~= b.drop_first().take(k - 1)) by {
            assert forall|j: int| 0 <= j < k - 1 implies #[trigger] a.drop_first().take(k - 1)[j] == b.drop_first().take(k - 1)[j] by {
                assert(a.take(k)[j + 1] == a[j + 1]);
                assert(b.take(k)[j + 1] == b[j + 1]);
                assert(a.take(k)[j + 1] == b.take(k)[j + 1]);
                assert(a.drop_first().take(k - 1)[j] == a[j + 1]);
                assert(b.drop_first().take(k - 1)[j] == b[j + 1]);
            }
        }
        lemma_text_first_difference(a.drop_first(), b.drop_first(), k - 1);
    }
}

/// Characters order by code point, integers and big integers by value, `false` comes
/// before `true`.
pub proof fn law_order_of_scalars(x: char, y: char, i: int, j: int)
    ensures
        x < y ==> compare_values(EdnValue::Char(x), EdnValue::Char(y)) == -1,
        i < j ==> compare_values(EdnValue::Int(i), EdnValue::Int(j)) == -1,
        i < j ==> compare_values(EdnValue::BigInt(i), EdnValue::BigInt(j)) == -1,
        compare_values(EdnValue::Bool(false), EdnValue::Bool(true)) == -1,
{
}

/// Strings, symbols and keywords order as in a dictionary, by code point: a proper prefix
/// comes first, otherwise the text with the smaller character where they first differ.
pub proof fn law_order_of_texts(a: Seq<char>, b: Seq<char>, k: int)
    ensures
        a.len() < b.len() && b.take(a.len() as int) == a ==> {
            &&& compare_values(EdnValue::Str(a), EdnValue::Str(b)) == -1
            &&& compare_values(EdnValue::Symbol(a), EdnValue::Symbol(b)) == -1
            &&& compare_values(EdnValue::Keyword(a), EdnValue::Keyword(b)) == -1
        },
        0 <= k < a.len() && k < b.len() && a.take(k) == b.take(k) && a[k] < b[k] ==> {
            &&& compare_values(EdnValue::Str(a), EdnValue::Str(b)) == -1
            &&& compare_values(EdnValue::Symbol(a), EdnValue::Symbol(b)) == -1
            &&& compare_values(EdnValue::Keyword(a), EdnValue::Keyword(b)) == -1
        },
{
    if a.len() < b.len() && b.take(a.len() as int) == a {
        lemma_text_prefix(a, b);
    }
    if 0 <= k < a.len() && k < b.len() && a.take(k) == b.take(k) && a[k] < b[k] {
        lemma_text_first_difference(a, b, k);
    }
}

/// Numbers order by value. The decimal `u × 10^-s` comes before `v × 10^-(s+k)` where
/// `u × 10^k < v`, and so do finite floats; the ratio `p1/q1` comes before `p2/q2`
/// (positive denominators) where `p1 × q2 < p2 × q1`; negative infinity comes before every
/// finite float, every finite float before infinity, and infinity before NaN.
pub proof fn law_order_of_numbers(u: int, v: int, s: int, k: nat, p1: int, q1: int, p2: int, q2: int)
    ensures
        u * pow10(k) < v ==> compare_values(EdnValue::Decimal(u, s), EdnValue::Decimal(v, s + k)) == -1,
        u * pow10(k) < v ==> compare_values(
            EdnValue::Float(FloatModel::Finite(u, s)),
            EdnValue::Float(FloatModel::Finite(v, s + k)),
        ) == -1,
        q1 > 0 && q2 > 0 && p1 * q2 < p2 * q1 ==> compare_values(EdnValue::Ratio(p1, q1), EdnValue::Ratio(p2, q2)) == -1,
        compare_values(EdnValue::Float(FloatModel::NegInfinity), EdnValue::Float(FloatModel::Finite(u, s))) == -1,
        compare_values(EdnValue::Float(FloatModel::Finite(u, s)), EdnValue::Float(FloatModel::Infinity)) == -1,
        compare_values(EdnValue::Float(FloatModel::Infinity), EdnValue::Float(FloatModel::NaN)) == -1,
{
    let n = s + k;
    assert(larger(s, n) == n);
    assert((n - s) as nat == k);
    assert((n - n) as nat == 0);
    assert(pow10(0) == 1);
    assert(scaled_to(v, n, n) == v);
    assert(scaled_to(u, s, n) == u * pow10(k));
}

/// Kinds of values order as the variants of `Edn` are declared: nil, booleans, strings,
/// characters, symbols, keywords, integers, big integers, floats, big decimals, ratios,
/// lists, vectors, sets, maps and tagged elements, whatever they hold.
pub proof fn law_order_of_kinds(
    b: bool,
    x: Seq<char>,
    c: char,
    i: int,
    f: FloatModel,
    u: int,
    s: int,
    xs: Seq<EdnValue>,
    ys: Seq<EdnValue>,
    es: Seq<(EdnValue, EdnValue)>,
    v: EdnValue,
)
    ensures
        compare_values(EdnValue::Nil, EdnValue::Bool(b)) == -1,
        compare_values(EdnValue::Bool(b), EdnValue::Str(x)) == -1,
        compare_values(EdnValue::Str(x), EdnValue::Char(c)) == -1,
        compare_values(EdnValue::Char(c), EdnValue::Symbol(x)) == -1,
        compare_values(EdnValue::Symbol(x), EdnValue::Keyword(x)) == -1,
        compare_values(EdnValue::Keyword(x), EdnValue::Int(i)) == -1,
        compare_values(EdnValue::Int(i), EdnValue::BigInt(i)) == -1,
        compare_values(EdnValue::BigInt(i), EdnValue::Float(f)) == -1,
        compare_values(EdnValue::Float(f), EdnValue::Decimal(u, s)) == -1,
        compare_values(EdnValue::Decimal(u, s), EdnValue::Ratio(u, s)) == -1,
        compare_values(EdnValue::Ratio(u, s), EdnValue::List(xs)) == -1,
        compare_values(EdnValue::List(xs), EdnValue::Vector(ys)) == -1,
        compare_values(EdnValue::Vector(xs), EdnValue::SetOf(ys)) == -1,
        compare_values(EdnValue::SetOf(xs), EdnValue::MapOf(es)) == -1,
        compare_values(EdnValue::MapOf(es), EdnValue::Tagged(x, Box::new(v))) == -1,
{
}

} // verus!
