//! Term lists and what they denote.
//!
//! A polynomial is written down as a list of terms, each a monomial with a
//! coefficient.  Many lists denote the same polynomial: what counts is, for
//! each monomial, the sum of the coefficients it carries.  Among the lists of
//! one polynomial exactly one is *canonical*: ordered by the term order, with
//! no monomial twice and no zero coefficient.  This module defines these
//! notions over an arbitrary ring context and proves that the canonical list
//! exists and is unique.

use crate::monomial::{
    lemma_precedes_asymmetric, lemma_precedes_irreflexive, lemma_precedes_total,
    lemma_precedes_transitive, precedes,
};
use crate::ring::Ring;
use vstd::prelude::*;

verus! {

/// One term: the exponents of its monomial and the value of its coefficient.
pub ghost struct TermValue<V> {
    pub exponents: Seq<u64>,
    pub coeff: V,
}

/// Every coefficient of `ts` is a member of `ring`.
pub open spec fn covers<R: Ring>(ring: &R, ts: Seq<TermValue<R::Value>>) -> bool {
    forall|i: int| 0 <= i < ts.len() ==> ring.contains((#[trigger] ts[i]).coeff)
}

/// Every monomial of `ts` has `n` variables.
pub open spec fn uniform<V>(n: nat, ts: Seq<TermValue<V>>) -> bool {
    forall|i: int| 0 <= i < ts.len() ==> (#[trigger] ts[i]).exponents.len() == n
}

/// The sum of the coefficients of those terms of `ts` whose monomial
/// satisfies `s`.
pub open spec fn weight<R: Ring>(
    ring: &R,
    ts: Seq<TermValue<R::Value>>,
    s: spec_fn(Seq<u64>) -> bool,
) -> R::Value
    decreases ts.len(),
{
    if ts.len() == 0 {
        ring.zero_value()
    } else if s(ts.last().exponents) {
        ring.sum(weight(ring, ts.drop_last(), s), ts.last().coeff)
    } else {
        weight(ring, ts.drop_last(), s)
    }
}

/// The condition of being the monomial `m`.
pub open spec fn exactly(m: Seq<u64>) -> spec_fn(Seq<u64>) -> bool {
    |x: Seq<u64>| x == m
}

/// The coefficient that `ts` gives to the monomial `m`: the sum of the
/// coefficients of all terms of `ts` with that monomial.
pub open spec fn coeff<R: Ring>(ring: &R, ts: Seq<TermValue<R::Value>>, m: Seq<u64>) -> R::Value {
    weight(ring, ts, exactly(m))
}

/// `a` and `b` denote the same polynomial: they give every monomial the same
/// coefficient.
pub open spec fn same_polynomial<R: Ring>(
    ring: &R,
    a: Seq<TermValue<R::Value>>,
    b: Seq<TermValue<R::Value>>,
) -> bool {
    forall|m: Seq<u64>|
        #![trigger coeff(ring, a, m)]
        #![trigger coeff(ring, b, m)]
        coeff(ring, a, m) == coeff(ring, b, m)
}

/// The monomials of `ts` ascend strictly in the term order.
pub open spec fn ordered<V>(ts: Seq<TermValue<V>>) -> bool {
    forall|i: int, j: int|
        0 <= i < j < ts.len() ==> precedes(
            (#[trigger] ts[i]).exponents,
            (#[trigger] ts[j]).exponents,
        )
}

/// No monomial occurs in two terms of `ts`.
pub open spec fn distinct<V>(ts: Seq<TermValue<V>>) -> bool {
    forall|i: int, j: int|
        0 <= i < j < ts.len() ==> (#[trigger] ts[i]).exponents != (#[trigger] ts[j]).exponents
}

/// No coefficient of `ts` is the zero of `ring`.
pub open spec fn zero_free<R: Ring>(ring: &R, ts: Seq<TermValue<R::Value>>) -> bool {
    forall|i: int| 0 <= i < ts.len() ==> (#[trigger] ts[i]).coeff != ring.zero_value()
}

/// `ts` is in canonical form: ordered, hence without a repeated monomial, and
/// free of zero coefficients.
pub open spec fn canonical<R: Ring>(ring: &R, ts: Seq<TermValue<R::Value>>) -> bool {
    ordered(ts) && zero_free(ring, ts)
}

/// `nf` is the canonical list of the polynomial that `ts` denotes.
pub open spec fn is_normal_form<R: Ring>(
    ring: &R,
    nf: Seq<TermValue<R::Value>>,
    ts: Seq<TermValue<R::Value>>,
) -> bool {
    &&& canonical(ring, nf)
    &&& covers(ring, nf)
    &&& same_polynomial(ring, nf, ts)
}

/// The canonical list of the polynomial that `ts` denotes.
pub open spec fn normal_form<R: Ring>(ring: &R, ts: Seq<TermValue<R::Value>>) -> Seq<
    TermValue<R::Value>,
> {
    choose|nf: Seq<TermValue<R::Value>>| is_normal_form(ring, nf, ts)
}

/// Zero is neutral on the left as well.
pub proof fn lemma_zero_sum<R: Ring>(ring: &R, a: R::Value)
    requires
        ring.wf(),
        ring.contains(a),
    ensures
        ring.sum(ring.zero_value(), a) == a,
{
    ring.lemma_identities();
    ring.lemma_sum_commutative(ring.zero_value(), a);
    ring.lemma_sum_zero(a);
}

/// A product with zero is zero.
pub proof fn lemma_product_zero<R: Ring>(ring: &R, a: R::Value)
    requires
        ring.wf(),
        ring.contains(a),
    ensures
        ring.product(a, ring.zero_value()) == ring.zero_value(),
        ring.product(ring.zero_value(), a) == ring.zero_value(),
{
    let z = ring.zero_value();
    ring.lemma_identities();
    ring.lemma_sum_zero(z);
    let x = ring.product(a, z);
    let y = ring.product(z, a);
    ring.lemma_closed(a, z);
    ring.lemma_closed(z, a);
    ring.lemma_distributive(a, z, z);
    ring.lemma_distributive(z, z, a);
    lemma_sum_idempotent_is_zero(ring, x);
    lemma_sum_idempotent_is_zero(ring, y);
}

/// The only element that is its own double is zero.
pub proof fn lemma_sum_idempotent_is_zero<R: Ring>(ring: &R, x: R::Value)
    requires
        ring.wf(),
        ring.contains(x),
        ring.sum(x, x) == x,
    ensures
        x == ring.zero_value(),
{
    let n = ring.negation(x);
    ring.lemma_closed(x, x);
    ring.lemma_sum_negation(x);
    ring.lemma_sum_associative(x, x, n);
    ring.lemma_sum_zero(x);
}

/// An element whose negation is zero is zero.
pub proof fn lemma_negation_zero<R: Ring>(ring: &R, x: R::Value)
    requires
        ring.wf(),
        ring.contains(x),
        ring.negation(x) == ring.zero_value(),
    ensures
        x == ring.zero_value(),
{
    ring.lemma_sum_negation(x);
    ring.lemma_sum_zero(x);
}

/// Two sums of two can be added crosswise.
pub proof fn lemma_sum_interchange<R: Ring>(
    ring: &R,
    a: R::Value,
    b: R::Value,
    c: R::Value,
    d: R::Value,
)
    requires
        ring.wf(),
        ring.contains(a),
        ring.contains(b),
        ring.contains(c),
        ring.contains(d),
    ensures
        ring.sum(ring.sum(a, b), ring.sum(c, d)) == ring.sum(ring.sum(a, c), ring.sum(b, d)),
{
    ring.lemma_closed(a, b);
    ring.lemma_closed(c, d);
    ring.lemma_closed(a, c);
    ring.lemma_closed(b, d);
    ring.lemma_closed(b, c);
    ring.lemma_closed(c, b);
    // (a+b)+(c+d) = a+(b+(c+d)) = a+((b+c)+d) = a+((c+b)+d) = a+(c+(b+d)) = (a+c)+(b+d)
    ring.lemma_sum_associative(a, b, ring.sum(c, d));
    ring.lemma_sum_associative(b, c, d);
    ring.lemma_sum_commutative(b, c);
    ring.lemma_sum_associative(c, b, d);
    ring.lemma_sum_associative(a, c, ring.sum(b, d));
}

/// A third summand can be moved past the second.
pub proof fn lemma_sum_shift<R: Ring>(ring: &R, a: R::Value, b: R::Value, c: R::Value)
    requires
        ring.wf(),
        ring.contains(a),
        ring.contains(b),
        ring.contains(c),
    ensures
        ring.sum(ring.sum(a, b), c) == ring.sum(ring.sum(a, c), b),
{
    ring.lemma_sum_associative(a, b, c);
    ring.lemma_sum_commutative(b, c);
    ring.lemma_sum_associative(a, c, b);
}

/// A weight is a member of the ring.
pub proof fn lemma_weight_member<R: Ring>(
    ring: &R,
    ts: Seq<TermValue<R::Value>>,
    s: spec_fn(Seq<u64>) -> bool,
)
    requires
        ring.wf(),
        covers(ring, ts),
    ensures
        ring.contains(weight(ring, ts, s)),
    decreases ts.len(),
{
    ring.lemma_identities();
    if ts.len() > 0 {
        lemma_weight_member(ring, ts.drop_last(), s);
        ring.lemma_closed(weight(ring, ts.drop_last(), s), ts.last().coeff);
    }
}

/// A coefficient is a member of the ring.
pub proof fn lemma_coeff_member<R: Ring>(ring: &R, ts: Seq<TermValue<R::Value>>, m: Seq<u64>)
    requires
        ring.wf(),
        covers(ring, ts),
    ensures
        ring.contains(coeff(ring, ts, m)),
{
    lemma_weight_member(ring, ts, exactly(m));
}

/// What one more term at the end adds to a weight.
pub open spec fn share<R: Ring>(
    ring: &R,
    t: TermValue<R::Value>,
    s: spec_fn(Seq<u64>) -> bool,
) -> R::Value {
    if s(t.exponents) {
        t.coeff
    } else {
        ring.zero_value()
    }
}

/// The weight of a list with one more term is the weight of the list plus the
/// share of the term.
pub proof fn lemma_weight_push<R: Ring>(
    ring: &R,
    ts: Seq<TermValue<R::Value>>,
    t: TermValue<R::Value>,
    s: spec_fn(Seq<u64>) -> bool,
)
    requires
        ring.wf(),
        covers(ring, ts),
        ring.contains(t.coeff),
    ensures
        weight(ring, ts.push(t), s) == ring.sum(weight(ring, ts, s), share(ring, t, s)),
{
    assert(ts.push(t).drop_last() =~= ts);
    lemma_weight_member(ring, ts, s);
    ring.lemma_sum_zero(weight(ring, ts, s));
}

/// The weight of a concatenation is the sum of the weights.
pub proof fn lemma_weight_concat<R: Ring>(
    ring: &R,
    a: Seq<TermValue<R::Value>>,
    b: Seq<TermValue<R::Value>>,
    s: spec_fn(Seq<u64>) -> bool,
)
    requires
        ring.wf(),
        covers(ring, a),
        covers(ring, b),
    ensures
        weight(ring, a + b, s) == ring.sum(weight(ring, a, s), weight(ring, b, s)),
    decreases b.len(),
{
    lemma_weight_member(ring, a, s);
    if b.len() == 0 {
        assert(a + b =~= a);
        ring.lemma_sum_zero(weight(ring, a, s));
    } else {
        let b0 = b.drop_last();
        assert((a + b).drop_last() =~= a + b0);
        lemma_weight_concat(ring, a, b0, s);
        lemma_weight_member(ring, b0, s);
        if s(b.last().exponents) {
            ring.lemma_sum_associative(weight(ring, a, s), weight(ring, b0, s), b.last().coeff);
        }
    }
}

/// The coefficient of a concatenation is the sum of the coefficients.
pub proof fn lemma_coeff_concat<R: Ring>(
    ring: &R,
    a: Seq<TermValue<R::Value>>,
    b: Seq<TermValue<R::Value>>,
    m: Seq<u64>,
)
    requires
        ring.wf(),
        covers(ring, a),
        covers(ring, b),
    ensures
        coeff(ring, a + b, m) == ring.sum(coeff(ring, a, m), coeff(ring, b, m)),
{
    lemma_weight_concat(ring, a, b, exactly(m));
}

/// Terms whose monomials all fail `s` weigh nothing.
pub proof fn lemma_weight_none<R: Ring>(
    ring: &R,
    ts: Seq<TermValue<R::Value>>,
    s: spec_fn(Seq<u64>) -> bool,
)
    requires
        forall|i: int| 0 <= i < ts.len() ==> !s((#[trigger] ts[i]).exponents),
    ensures
        weight(ring, ts, s) == ring.zero_value(),
    decreases ts.len(),
{
    if ts.len() > 0 {
        lemma_weight_none(ring, ts.drop_last(), s);
    }
}

/// A monomial that does not occur has the coefficient zero.
pub proof fn lemma_coeff_absent<R: Ring>(ring: &R, ts: Seq<TermValue<R::Value>>, m: Seq<u64>)
    requires
        forall|i: int| 0 <= i < ts.len() ==> (#[trigger] ts[i]).exponents != m,
    ensures
        coeff(ring, ts, m) == ring.zero_value(),
{
    lemma_weight_none(ring, ts, exactly(m));
}

/// Two conditions that agree on the monomials of a list give the same weight.
pub proof fn lemma_weight_agree<R: Ring>(
    ring: &R,
    ts: Seq<TermValue<R::Value>>,
    s1: spec_fn(Seq<u64>) -> bool,
    s2: spec_fn(Seq<u64>) -> bool,
)
    requires
        forall|i: int|
            0 <= i < ts.len() ==> s1((#[trigger] ts[i]).exponents) == s2(ts[i].exponents),
    ensures
        weight(ring, ts, s1) == weight(ring, ts, s2),
    decreases ts.len(),
{
    if ts.len() > 0 {
        lemma_weight_agree(ring, ts.drop_last(), s1, s2);
    }
}

/// An ordered list has no monomial twice.
pub proof fn lemma_ordered_distinct<V>(ts: Seq<TermValue<V>>)
    requires
        ordered(ts),
    ensures
        distinct(ts),
{
    assert forall|i: int, j: int| 0 <= i < j < ts.len() implies (#[trigger] ts[i]).exponents != (
    #[trigger] ts[j]).exponents by {
        lemma_precedes_irreflexive(ts[i].exponents);
    }
}

/// In a list without a repeated monomial, the coefficient of a monomial that
/// occurs is the coefficient of its term.
pub proof fn lemma_coeff_distinct<R: Ring>(ring: &R, ts: Seq<TermValue<R::Value>>, i: int)
    requires
        ring.wf(),
        covers(ring, ts),
        distinct(ts),
        0 <= i < ts.len(),
    ensures
        coeff(ring, ts, ts[i].exponents) == ts[i].coeff,
    decreases ts.len(),
{
    let m = ts[i].exponents;
    let rest = ts.drop_last();
    if i == ts.len() - 1 {
        assert forall|j: int| 0 <= j < rest.len() implies (#[trigger] rest[j]).exponents != m by {
            assert(rest[j] == ts[j]);
        }
        lemma_coeff_absent(ring, rest, m);
        lemma_zero_sum(ring, ts[i].coeff);
    } else {
        assert(rest[i] == ts[i]);
        lemma_coeff_distinct(ring, rest, i);
    }
}

/// A monomial with a coefficient other than zero occurs in the list.
pub proof fn lemma_occurs<R: Ring>(ring: &R, ts: Seq<TermValue<R::Value>>, m: Seq<u64>) -> (i: int)
    requires
        coeff(ring, ts, m) != ring.zero_value(),
    ensures
        0 <= i < ts.len(),
        ts[i].exponents == m,
{
    if forall|j: int| 0 <= j < ts.len() ==> (#[trigger] ts[j]).exponents != m {
        lemma_coeff_absent(ring, ts, m);
    }
    choose|j: int| 0 <= j < ts.len() && (#[trigger] ts[j]).exponents == m
}

/// Two canonical lists of the same polynomial are the same list.
pub proof fn lemma_canonical_unique<R: Ring>(
    ring: &R,
    a: Seq<TermValue<R::Value>>,
    b: Seq<TermValue<R::Value>>,
)
    requires
        ring.wf(),
        canonical(ring, a),
        canonical(ring, b),
        covers(ring, a),
        covers(ring, b),
        same_polynomial(ring, a, b),
    ensures
        a == b,
    decreases a.len(),
{
    lemma_ordered_distinct(a);
    lemma_ordered_distinct(b);
    if a.len() == 0 || b.len() == 0 {
        if b.len() > 0 {
            let y = b.last().exponents;
            lemma_coeff_distinct(ring, b, b.len() - 1);
            lemma_coeff_absent(ring, a, y);
            assert(coeff(ring, a, y) == coeff(ring, b, y));
        }
        if a.len() > 0 {
            let x = a.last().exponents;
            lemma_coeff_distinct(ring, a, a.len() - 1);
            lemma_coeff_absent(ring, b, x);
            assert(coeff(ring, a, x) == coeff(ring, b, x));
        }
        assert(a =~= b);
    } else {
        let x = a.last().exponents;
        let y = b.last().exponents;
        lemma_coeff_distinct(ring, a, a.len() - 1);
        lemma_coeff_distinct(ring, b, b.len() - 1);
        assert(coeff(ring, a, x) == coeff(ring, b, x));
        assert(coeff(ring, a, y) == coeff(ring, b, y));
        let j = lemma_occurs(ring, b, x);
        let i = lemma_occurs(ring, a, y);
        if x != y {
            assert(precedes(b[j].exponents, b[b.len() - 1].exponents));
            assert(precedes(a[i].exponents, a[a.len() - 1].exponents));
            lemma_precedes_asymmetric(x, y);
        }
        assert(a.last() == b.last());
        let a0 = a.drop_last();
        let b0 = b.drop_last();
        assert forall|m: Seq<u64>| coeff(ring, a0, m) == coeff(ring, b0, m) by {
            if m == x {
                assert forall|k: int| 0 <= k < a0.len() implies (#[trigger] a0[k]).exponents
                    != m by {
                    assert(a0[k] == a[k]);
                }
                assert forall|k: int| 0 <= k < b0.len() implies (#[trigger] b0[k]).exponents
                    != m by {
                    assert(b0[k] == b[k]);
                }
                lemma_coeff_absent(ring, a0, m);
                lemma_coeff_absent(ring, b0, m);
            } else {
                assert(coeff(ring, a, m) == coeff(ring, a0, m));
                assert(coeff(ring, b, m) == coeff(ring, b0, m));
                assert(coeff(ring, a, m) == coeff(ring, b, m));
            }
        }
        assert(ordered(a0)) by {
            assert forall|p: int, q: int| 0 <= p < q < a0.len() implies precedes(
                (#[trigger] a0[p]).exponents,
                (#[trigger] a0[q]).exponents,
            ) by {
                assert(a0[p] == a[p] && a0[q] == a[q]);
            }
        }
        assert(ordered(b0)) by {
            assert forall|p: int, q: int| 0 <= p < q < b0.len() implies precedes(
                (#[trigger] b0[p]).exponents,
                (#[trigger] b0[q]).exponents,
            ) by {
                assert(b0[p] == b[p] && b0[q] == b[q]);
            }
        }
        assert(zero_free(ring, a0) && covers(ring, a0)) by {
            assert forall|p: int| 0 <= p < a0.len() implies (#[trigger] a0[p]).coeff
                != ring.zero_value() && ring.contains(a0[p].coeff) by {
                assert(a0[p] == a[p]);
            }
        }
        assert(zero_free(ring, b0) && covers(ring, b0)) by {
            assert forall|p: int| 0 <= p < b0.len() implies (#[trigger] b0[p]).coeff
                != ring.zero_value() && ring.contains(b0[p].coeff) by {
                assert(b0[p] == b[p]);
            }
        }
        lemma_canonical_unique(ring, a0, b0);
        assert(a =~= a0.push(a.last()));
        assert(b =~= b0.push(b.last()));
    }
}

/// `a` and `b` give every condition on monomials the same weight.
pub open spec fn same_weights<R: Ring>(
    ring: &R,
    a: Seq<TermValue<R::Value>>,
    b: Seq<TermValue<R::Value>>,
) -> bool {
    forall|s: spec_fn(Seq<u64>) -> bool|
        #![trigger weight(ring, a, s)]
        #![trigger weight(ring, b, s)]
        weight(ring, a, s) == weight(ring, b, s)
}

/// `k` is where a term with the monomial `m` belongs in `ts`: what stands
/// before `k` precedes `m`, and nothing from `k` on does.
pub open spec fn splits_at<V>(ts: Seq<TermValue<V>>, m: Seq<u64>, k: int) -> bool {
    &&& 0 <= k <= ts.len()
    &&& forall|i: int| 0 <= i < k ==> precedes((#[trigger] ts[i]).exponents, m)
    &&& forall|i: int| k <= i < ts.len() ==> !precedes((#[trigger] ts[i]).exponents, m)
}

/// `acc` with the term `t` taken in at position `k`: added to the term that
/// has its monomial, if there is one, and put in as a new term otherwise.
pub open spec fn absorbed<R: Ring>(
    ring: &R,
    acc: Seq<TermValue<R::Value>>,
    k: int,
    t: TermValue<R::Value>,
) -> Seq<TermValue<R::Value>> {
    if k < acc.len() && acc[k].exponents == t.exponents {
        acc.update(
            k,
            TermValue { exponents: t.exponents, coeff: ring.sum(acc[k].coeff, t.coeff) },
        )
    } else {
        acc.insert(k, t)
    }
}

/// Every ordered list has a place for every monomial.
pub proof fn lemma_position<V>(ts: Seq<TermValue<V>>, m: Seq<u64>) -> (k: int)
    requires
        ordered(ts),
    ensures
        splits_at(ts, m, k),
    decreases ts.len(),
{
    if ts.len() == 0 {
        0
    } else if precedes(ts.last().exponents, m) {
        assert forall|i: int| 0 <= i < ts.len() implies precedes(
            (#[trigger] ts[i]).exponents,
            m,
        ) by {
            if i < ts.len() - 1 {
                assert(precedes(ts[i].exponents, ts[ts.len() - 1].exponents));
                lemma_precedes_transitive(ts[i].exponents, ts.last().exponents, m);
            }
        }
        ts.len() as int
    } else {
        let rest = ts.drop_last();
        assert(ordered(rest)) by {
            assert forall|p: int, q: int| 0 <= p < q < rest.len() implies precedes(
                (#[trigger] rest[p]).exponents,
                (#[trigger] rest[q]).exponents,
            ) by {
                assert(rest[p] == ts[p] && rest[q] == ts[q]);
            }
        }
        let k = lemma_position(rest, m);
        assert forall|i: int| 0 <= i < k implies precedes((#[trigger] ts[i]).exponents, m) by {
            assert(rest[i] == ts[i]);
        }
        assert forall|i: int| k <= i < ts.len() implies !precedes(
            (#[trigger] ts[i]).exponents,
            m,
        ) by {
            if i < ts.len() - 1 {
                assert(rest[i] == ts[i]);
            }
        }
        k
    }
}

/// Taking a term in keeps the list ordered and within the ring, and adds the
/// share of the term to every weight.
pub proof fn lemma_absorbed<R: Ring>(
    ring: &R,
    acc: Seq<TermValue<R::Value>>,
    k: int,
    t: TermValue<R::Value>,
)
    requires
        ring.wf(),
        ordered(acc),
        covers(ring, acc),
        ring.contains(t.coeff),
        splits_at(acc, t.exponents, k),
    ensures
        ordered(absorbed(ring, acc, k, t)),
        covers(ring, absorbed(ring, acc, k, t)),
        same_weights(ring, absorbed(ring, acc, k, t), acc.push(t)),
{
    let out = absorbed(ring, acc, k, t);
    let m = t.exponents;
    let front = acc.take(k);
    if k < acc.len() && acc[k].exponents == m {
        let back = acc.skip(k + 1);
        let merged = TermValue { exponents: m, coeff: ring.sum(acc[k].coeff, t.coeff) };
        ring.lemma_closed(acc[k].coeff, t.coeff);
        assert(ordered(out)) by {
            assert forall|p: int, q: int| 0 <= p < q < out.len() implies precedes(
                (#[trigger] out[p]).exponents,
                (#[trigger] out[q]).exponents,
            ) by {
                assert(precedes(acc[p].exponents, acc[q].exponents));
            }
        }
        assert(covers(ring, out)) by {
            assert forall|p: int| 0 <= p < out.len() implies ring.contains(
                (#[trigger] out[p]).coeff,
            ) by {
                if p != k {
                    assert(out[p] == acc[p]);
                }
            }
        }
        assert(out =~= front.push(merged) + back);
        assert(acc =~= front.push(acc[k]) + back);
        assert(acc.push(t) =~= front.push(acc[k]) + back.push(t));
        assert forall|s: spec_fn(Seq<u64>) -> bool| weight(ring, out, s) == weight(
            ring,
            acc.push(t),
            s,
        ) by {
            let f = weight(ring, front, s);
            let b = weight(ring, back, s);
            lemma_weight_member(ring, front, s);
            lemma_weight_member(ring, back, s);
            lemma_weight_push(ring, front, merged, s);
            lemma_weight_push(ring, front, acc[k], s);
            lemma_weight_push(ring, back, t, s);
            lemma_weight_concat(ring, front.push(merged), back, s);
            lemma_weight_concat(ring, front.push(acc[k]), back.push(t), s);
            ring.lemma_identities();
            if s(m) {
                let c = acc[k].coeff;
                let d = t.coeff;
                // (f + (c + d)) + b == (f + c) + (b + d)
                ring.lemma_sum_associative(f, c, d);
                ring.lemma_closed(f, c);
                lemma_sum_shift(ring, ring.sum(f, c), d, b);
                ring.lemma_sum_associative(ring.sum(f, c), b, d);
            } else {
                ring.lemma_sum_zero(b);
            }
        }
    } else {
        let back = acc.skip(k);
        assert(ordered(out)) by {
            assert forall|p: int, q: int| 0 <= p < q < out.len() implies precedes(
                (#[trigger] out[p]).exponents,
                (#[trigger] out[q]).exponents,
            ) by {
                if q == k {
                    assert(out[p] == acc[p]);
                } else if p == k {
                    let u = out[q];
                    assert(u == acc[q - 1]);
                    lemma_precedes_total(u.exponents, m);
                    if u.exponents == m {
                        assert(precedes(acc[k].exponents, acc[q - 1].exponents));
                    }
                } else {
                    let from_p = if p < k { p } else { p - 1 };
                    let from_q = if q < k { q } else { q - 1 };
                    assert(out[p] == acc[from_p] && out[q] == acc[from_q]);
                    assert(precedes(acc[from_p].exponents, acc[from_q].exponents));
                }
            }
        }
        assert(covers(ring, out)) by {
            assert forall|p: int| 0 <= p < out.len() implies ring.contains(
                (#[trigger] out[p]).coeff,
            ) by {
                if p < k {
                    assert(out[p] == acc[p]);
                } else if p > k {
                    assert(out[p] == acc[p - 1]);
                }
            }
        }
        assert(out =~= front.push(t) + back);
        assert(acc =~= front + back);
        assert(acc.push(t) =~= front + back.push(t));
        assert forall|s: spec_fn(Seq<u64>) -> bool| weight(ring, out, s) == weight(
            ring,
            acc.push(t),
            s,
        ) by {
            let f = weight(ring, front, s);
            let b = weight(ring, back, s);
            lemma_weight_member(ring, front, s);
            lemma_weight_member(ring, back, s);
            lemma_weight_push(ring, front, t, s);
            lemma_weight_push(ring, back, t, s);
            lemma_weight_concat(ring, front.push(t), back, s);
            lemma_weight_concat(ring, front, back.push(t), s);
            ring.lemma_identities();
            // (f + d) + b == f + (b + d)
            lemma_sum_shift(ring, f, share(ring, t, s), b);
            ring.lemma_sum_associative(f, b, share(ring, t, s));
        }
    }
}

/// Every term of `out` is a term of `ts`.
pub open spec fn drawn_from<V>(out: Seq<TermValue<V>>, ts: Seq<TermValue<V>>) -> bool {
    forall|k: int|
        0 <= k < out.len() ==> exists|i: int| 0 <= i < ts.len() && ts[i] == #[trigger] out[k]
}

/// Every list over the ring has an ordered list with the same weights.
pub proof fn lemma_gather<R: Ring>(ring: &R, ts: Seq<TermValue<R::Value>>) -> (acc: Seq<
    TermValue<R::Value>,
>)
    requires
        ring.wf(),
        covers(ring, ts),
    ensures
        ordered(acc),
        covers(ring, acc),
        same_weights(ring, acc, ts),
    decreases ts.len(),
{
    if ts.len() == 0 {
        ts
    } else {
        let rest = ts.drop_last();
        let t = ts.last();
        let acc0 = lemma_gather(ring, rest);
        let k = lemma_position(acc0, t.exponents);
        lemma_absorbed(ring, acc0, k, t);
        let acc = absorbed(ring, acc0, k, t);
        assert(ts =~= rest.push(t));
        assert forall|s: spec_fn(Seq<u64>) -> bool| weight(ring, acc, s) == weight(
            ring,
            ts,
            s,
        ) by {
            assert(weight(ring, acc, s) == weight(ring, acc0.push(t), s));
            assert(weight(ring, acc0, s) == weight(ring, rest, s));
            lemma_weight_push(ring, acc0, t, s);
            lemma_weight_push(ring, rest, t, s);
        }
        acc
    }
}

/// Every ordered list over the ring has a canonical list with the same
/// weights, made of terms of that list.
pub proof fn lemma_strip<R: Ring>(ring: &R, ts: Seq<TermValue<R::Value>>) -> (out: Seq<
    TermValue<R::Value>,
>)
    requires
        ring.wf(),
        ordered(ts),
        covers(ring, ts),
    ensures
        canonical(ring, out),
        covers(ring, out),
        same_weights(ring, out, ts),
        drawn_from(out, ts),
    decreases ts.len(),
{
    if ts.len() == 0 {
        ts
    } else {
        let rest = ts.drop_last();
        let t = ts.last();
        assert(ordered(rest) && covers(ring, rest)) by {
            assert forall|p: int, q: int| 0 <= p < q < rest.len() implies precedes(
                (#[trigger] rest[p]).exponents,
                (#[trigger] rest[q]).exponents,
            ) by {
                assert(rest[p] == ts[p] && rest[q] == ts[q]);
            }
            assert forall|p: int| 0 <= p < rest.len() implies ring.contains(
                (#[trigger] rest[p]).coeff,
            ) by {
                assert(rest[p] == ts[p]);
            }
        }
        let out0 = lemma_strip(ring, rest);
        assert(ts =~= rest.push(t));
        if t.coeff == ring.zero_value() {
            assert forall|s: spec_fn(Seq<u64>) -> bool| weight(ring, out0, s) == weight(
                ring,
                ts,
                s,
            ) by {
                assert(weight(ring, out0, s) == weight(ring, rest, s));
                lemma_weight_push(ring, rest, t, s);
                lemma_weight_member(ring, rest, s);
                ring.lemma_sum_zero(weight(ring, rest, s));
            }
            assert(drawn_from(out0, ts)) by {
                assert forall|k: int| 0 <= k < out0.len() implies exists|i: int|
                    0 <= i < ts.len() && ts[i] == #[trigger] out0[k] by {
                    let i = choose|i: int| 0 <= i < rest.len() && rest[i] == out0[k];
                    assert(ts[i] == out0[k]);
                }
            }
            out0
        } else {
            let out = out0.push(t);
            assert forall|s: spec_fn(Seq<u64>) -> bool| weight(ring, out, s) == weight(
                ring,
                ts,
                s,
            ) by {
                assert(weight(ring, out0, s) == weight(ring, rest, s));
                lemma_weight_push(ring, rest, t, s);
                lemma_weight_push(ring, out0, t, s);
            }
            assert(drawn_from(out, ts)) by {
                assert forall|k: int| 0 <= k < out.len() implies exists|i: int|
                    0 <= i < ts.len() && ts[i] == #[trigger] out[k] by {
                    if k < out0.len() {
                        assert(out[k] == out0[k]);
                        let i = choose|i: int| 0 <= i < rest.len() && rest[i] == out0[k];
                        assert(ts[i] == out[k]);
                    } else {
                        assert(ts[ts.len() - 1] == out[k]);
                    }
                }
            }
            assert(ordered(out)) by {
                assert forall|p: int, q: int| 0 <= p < q < out.len() implies precedes(
                    (#[trigger] out[p]).exponents,
                    (#[trigger] out[q]).exponents,
                ) by {
                    assert(out[p] == out0[p]);
                    if q < out0.len() {
                        assert(out[q] == out0[q]);
                    } else {
                        let i = choose|i: int| 0 <= i < rest.len() && rest[i] == out0[p];
                        assert(ts[i] == out[p]);
                        assert(precedes(ts[i].exponents, ts[ts.len() - 1].exponents));
                    }
                }
            }
            assert(zero_free(ring, out) && covers(ring, out)) by {
                assert forall|p: int| 0 <= p < out.len() implies (#[trigger] out[p]).coeff
                    != ring.zero_value() && ring.contains(out[p].coeff) by {
                    if p < out0.len() {
                        assert(out[p] == out0[p]);
                    }
                }
            }
            out
        }
    }
}

/// Lists with the same weights denote the same polynomial.
pub proof fn lemma_weights_polynomial<R: Ring>(
    ring: &R,
    a: Seq<TermValue<R::Value>>,
    b: Seq<TermValue<R::Value>>,
)
    requires
        same_weights(ring, a, b),
    ensures
        same_polynomial(ring, a, b),
{
    assert forall|m: Seq<u64>| coeff(ring, a, m) == coeff(ring, b, m) by {
        assert(weight(ring, a, exactly(m)) == weight(ring, b, exactly(m)));
    }
}

/// The normal form of a list over the ring is what its name says: canonical,
/// over the ring, and a list of the same polynomial.  It even has the weights
/// of the list.
pub proof fn lemma_normal_form<R: Ring>(ring: &R, ts: Seq<TermValue<R::Value>>)
    requires
        ring.wf(),
        covers(ring, ts),
    ensures
        is_normal_form(ring, normal_form(ring, ts), ts),
        same_weights(ring, normal_form(ring, ts), ts),
{
    let acc = lemma_gather(ring, ts);
    let out = lemma_strip(ring, acc);
    assert forall|s: spec_fn(Seq<u64>) -> bool| weight(ring, out, s) == weight(ring, ts, s) by {
        assert(weight(ring, out, s) == weight(ring, acc, s));
        assert(weight(ring, acc, s) == weight(ring, ts, s));
    }
    lemma_weights_polynomial(ring, out, ts);
    assert(is_normal_form(ring, out, ts));
    let nf = normal_form(ring, ts);
    assert(is_normal_form(ring, nf, ts));
    assert forall|m: Seq<u64>| coeff(ring, nf, m) == coeff(ring, out, m) by {
        assert(coeff(ring, nf, m) == coeff(ring, ts, m));
        assert(coeff(ring, out, m) == coeff(ring, ts, m));
    }
    lemma_canonical_unique(ring, nf, out);
}

/// A canonical list over the ring that denotes the polynomial of `ts` is the
/// normal form of `ts`.
pub proof fn lemma_normal_form_unique<R: Ring>(
    ring: &R,
    nf: Seq<TermValue<R::Value>>,
    ts: Seq<TermValue<R::Value>>,
)
    requires
        ring.wf(),
        covers(ring, ts),
        is_normal_form(ring, nf, ts),
    ensures
        nf == normal_form(ring, ts),
{
    lemma_normal_form(ring, ts);
    let other = normal_form(ring, ts);
    assert forall|m: Seq<u64>| coeff(ring, nf, m) == coeff(ring, other, m) by {
        assert(coeff(ring, nf, m) == coeff(ring, ts, m));
        assert(coeff(ring, other, m) == coeff(ring, ts, m));
    }
    lemma_canonical_unique(ring, nf, other);
}

/// Lists of the same polynomial have the same normal form.
pub proof fn lemma_normal_form_same<R: Ring>(
    ring: &R,
    a: Seq<TermValue<R::Value>>,
    b: Seq<TermValue<R::Value>>,
)
    requires
        ring.wf(),
        covers(ring, a),
        covers(ring, b),
        same_polynomial(ring, a, b),
    ensures
        normal_form(ring, a) == normal_form(ring, b),
{
    lemma_normal_form(ring, a);
    let nf = normal_form(ring, a);
    assert forall|m: Seq<u64>| coeff(ring, nf, m) == coeff(ring, b, m) by {
        assert(coeff(ring, nf, m) == coeff(ring, a, m));
        assert(coeff(ring, a, m) == coeff(ring, b, m));
    }
    lemma_normal_form_unique(ring, nf, b);
}

/// Lists of the same polynomial have the same weights.
pub proof fn lemma_same_weights<R: Ring>(
    ring: &R,
    a: Seq<TermValue<R::Value>>,
    b: Seq<TermValue<R::Value>>,
)
    requires
        ring.wf(),
        covers(ring, a),
        covers(ring, b),
        same_polynomial(ring, a, b),
    ensures
        same_weights(ring, a, b),
{
    lemma_normal_form(ring, a);
    lemma_normal_form(ring, b);
    lemma_normal_form_same(ring, a, b);
    let nf = normal_form(ring, a);
    assert forall|s: spec_fn(Seq<u64>) -> bool| weight(ring, a, s) == weight(ring, b, s) by {
        assert(weight(ring, nf, s) == weight(ring, a, s));
        assert(weight(ring, nf, s) == weight(ring, b, s));
    }
}

/// A canonical list over the ring is its own normal form.
pub proof fn lemma_normal_form_fixed<R: Ring>(ring: &R, f: Seq<TermValue<R::Value>>)
    requires
        ring.wf(),
        canonical(ring, f),
        covers(ring, f),
    ensures
        normal_form(ring, f) == f,
{
    lemma_normal_form_unique(ring, f, f);
}

/// The normal form has no monomial that the list does not have: it keeps the
/// number of variables.
pub proof fn lemma_normal_form_uniform<R: Ring>(
    ring: &R,
    n: nat,
    ts: Seq<TermValue<R::Value>>,
)
    requires
        ring.wf(),
        covers(ring, ts),
        uniform(n, ts),
    ensures
        uniform(n, normal_form(ring, ts)),
{
    lemma_normal_form(ring, ts);
    let nf = normal_form(ring, ts);
    lemma_ordered_distinct(nf);
    assert forall|i: int| 0 <= i < nf.len() implies (#[trigger] nf[i]).exponents.len() == n by {
        lemma_coeff_distinct(ring, nf, i);
        assert(coeff(ring, nf, nf[i].exponents) == coeff(ring, ts, nf[i].exponents));
        let j = lemma_occurs(ring, ts, nf[i].exponents);
        assert(ts[j].exponents.len() == n);
    }
}

} // verus!
